//! Optimizers: the Nelder-Mead simplex and BFGS, each also from several starts.

use vstd::prelude::*;

use crate::arith::{num, Arithmetic, HALF, MINUS_ZERO, Op, TWO};
use crate::double::{lemma_total_refines_below, Double, HIDDEN, ONE};
use crate::kriging::copy_values;
use crate::order::{
    precedes, sort_positions, stable_order, stable_order_exists, stable_order_is_unique,
};
use crate::transform::total_keys;

verus! {

/// Bit pattern of the relative spread at which a simplex has converged.
pub const SPREAD: u64 = 0x3D71_9799_812D_EA11;

/// Bit pattern of the gradient norm and curvature below which steps end.
pub const FLAT: u64 = 0x3DDB_7CDF_D9D7_BDBB;

/// Bit pattern of the sufficient-decrease factor of the line search.
pub const DECREASE: u64 = 0x3F1A_36E2_EB1C_432D;

/// Bit pattern of the shortest step of the line search.
pub const SHORTEST: u64 = 0x3D71_9799_812D_EA11;

/// Bit pattern of the relative change of value below which progress is none.
pub const STALL: u64 = 0x3D3C_25C2_6849_7682;

/// Halvings of one that reach the shortest step.
pub const HALVINGS: usize = 40;

/// `r` may be computed for the point `x`.
pub open spec fn objective_gives<O: Fn(&Vec<Double>) -> Double>(f: O, x: Seq<Double>, r: Double) -> bool {
    exists|v: Vec<Double>| v@ == x && #[trigger] call_ensures(f, (&v,), r)
}

/// Value of an objective at a point.
pub open spec fn objective<O: Fn(&Vec<Double>) -> Double>(f: O, x: Seq<Double>) -> Double {
    choose|r: Double| objective_gives(f, x, r)
}

/// A function of points.
pub type Objective = spec_fn(Seq<Double>) -> Double;

/// What an objective computes, as a function.
pub open spec fn objective_of<O: Fn(&Vec<Double>) -> Double>(f: O) -> Objective {
    |x: Seq<Double>| objective(f, x)
}

/// The objective can be computed at every point of `n` coordinates, and
/// computes `obj`.
pub open spec fn computes<O: Fn(&Vec<Double>) -> Double>(f: O, n: nat, obj: Objective) -> bool {
    &&& forall|x: &Vec<Double>| x@.len() == n ==> #[trigger] call_requires(f, (x,))
    &&& forall|x: &Vec<Double>, r: Double|
        x@.len() == n && #[trigger] call_ensures(f, (x,), r) ==> r == obj(x@)
}

/// The objective can be computed at every point of `n` coordinates, and is one
/// value there.
pub open spec fn objective_total<O: Fn(&Vec<Double>) -> Double>(f: O, n: nat) -> bool {
    computes(f, n, objective_of(f))
}

// ---------------------------------------------------------------------------
// Nelder-Mead
// ---------------------------------------------------------------------------

/// Vertices of a simplex and the values there.
pub type SimplexView = (Seq<Seq<Double>>, Seq<Double>);

/// Positions of values in ascending order.
pub open spec fn value_order(values: Seq<Double>) -> Seq<usize> {
    choose|o: Seq<usize>| stable_order(total_keys(values), o)
}

/// The simplex with its vertices in ascending order of value.
pub open spec fn arranged(s: SimplexView) -> SimplexView {
    let o = value_order(s.1);
    (
        Seq::new(s.1.len(), |i: int| s.0[o[i] as int]),
        Seq::new(s.1.len(), |i: int| s.1[o[i] as int]),
    )
}

/// The values of an arranged simplex hardly differ.
pub open spec fn converged<F: Fn(Op, Double, Double) -> Double>(
    ar: Arithmetic<F>,
    values: Seq<Double>,
) -> bool {
    ar.minus(values.last(), values[0]).abs().le(
        ar.times(num(SPREAD), values[0].abs().max(num(SPREAD))),
    )
}

/// Coordinate `j` of the centroid of the first `m` of `n` vertices.
pub open spec fn center_at<F: Fn(Op, Double, Double) -> Double>(
    ar: Arithmetic<F>,
    pts: Seq<Seq<Double>>,
    n: nat,
    j: int,
    m: int,
) -> Double
    decreases m,
{
    if m <= 0 {
        num(0)
    } else {
        ar.plus(
            center_at(ar, pts, n, j, m - 1),
            ar.over(pts[m - 1][j], Double::count(n)),
        )
    }
}

/// Centroid of all vertices but the last.
pub open spec fn centroid<F: Fn(Op, Double, Double) -> Double>(
    ar: Arithmetic<F>,
    pts: Seq<Seq<Double>>,
) -> Seq<Double> {
    let n = (pts.len() - 1) as nat;
    Seq::new(n, |j: int| center_at(ar, pts, n, j, n as int))
}

/// `c + k (a - b)` by coordinate.
pub open spec fn beyond<F: Fn(Op, Double, Double) -> Double>(
    ar: Arithmetic<F>,
    c: Seq<Double>,
    k: Double,
    a: Seq<Double>,
    b: Seq<Double>,
) -> Seq<Double> {
    Seq::new(c.len(), |j: int| ar.plus(c[j], ar.times(k, ar.minus(a[j], b[j]))))
}

/// `c - k (c - w)` by coordinate.
pub open spec fn within<F: Fn(Op, Double, Double) -> Double>(
    ar: Arithmetic<F>,
    c: Seq<Double>,
    k: Double,
    w: Seq<Double>,
) -> Seq<Double> {
    Seq::new(c.len(), |j: int| ar.minus(c[j], ar.times(k, ar.minus(c[j], w[j]))))
}

/// The simplex with its last vertex replaced.
pub open spec fn replaced(obj: Objective, s: SimplexView, x: Seq<Double>) -> SimplexView {
    let n = s.1.len() - 1;
    (s.0.update(n, x), s.1.update(n, obj(x)))
}

/// The simplex shrunk halfway toward its first vertex.
pub open spec fn shrunk<F: Fn(Op, Double, Double) -> Double>(
    ar: Arithmetic<F>,
    obj: Objective,
    s: SimplexView,
) -> SimplexView {
    let pts = Seq::new(
        s.0.len(),
        |i: int|
            if i == 0 {
                s.0[0]
            } else {
                beyond(ar, s.0[0], num(HALF), s.0[i], s.0[0])
            },
    );
    (
        pts,
        Seq::new(
            s.1.len(),
            |i: int|
                if i == 0 {
                    s.1[0]
                } else {
                    obj(pts[i])
                },
        ),
    )
}

/// One step from an arranged simplex that has not converged: reflection,
/// expansion, contraction or shrinkage.
pub open spec fn simplex_step<F: Fn(Op, Double, Double) -> Double>(
    ar: Arithmetic<F>,
    obj: Objective,
    s: SimplexView,
) -> SimplexView {
    let n = s.1.len() - 1;
    let c = centroid(ar, s.0);
    let worst = s.0[n];
    let xr = beyond(ar, c, num(ONE), c, worst);
    let fr = obj(xr);
    if fr.lt(s.1[0]) {
        let xe = beyond(ar, c, num(TWO), c, worst);
        if obj(xe).lt(fr) {
            replaced(obj, s, xe)
        } else {
            replaced(obj, s, xr)
        }
    } else if fr.lt(s.1[n - 1]) {
        replaced(obj, s, xr)
    } else {
        let xc = if fr.lt(s.1[n]) {
            beyond(ar, c, num(HALF), xr, c)
        } else {
            within(ar, c, num(HALF), worst)
        };
        if obj(xc).lt(fr.min(s.1[n])) {
            replaced(obj, s, xc)
        } else {
            shrunk(ar, obj, s)
        }
    }
}

/// The simplex after at most `k` steps.
pub open spec fn simplex_run<F: Fn(Op, Double, Double) -> Double>(
    ar: Arithmetic<F>,
    obj: Objective,
    s: SimplexView,
    k: nat,
) -> SimplexView
    decreases k,
{
    if k == 0 {
        s
    } else {
        let a = arranged(s);
        if converged(ar, a.1) {
            a
        } else {
            simplex_run(ar, obj, simplex_step(ar, obj, a), (k - 1) as nat)
        }
    }
}

/// The starting simplex: the start, and the start moved by `step` along each
/// axis.
pub open spec fn starting_simplex<F: Fn(Op, Double, Double) -> Double>(
    ar: Arithmetic<F>,
    obj: Objective,
    x0: Seq<Double>,
    step: Double,
) -> SimplexView {
    let pts = Seq::new(
        x0.len() + 1,
        |i: int|
            if i == 0 {
                x0
            } else {
                x0.update(i - 1, ar.plus(x0[i - 1], step))
            },
    );
    (pts, Seq::new(x0.len() + 1, |i: int| obj(pts[i])))
}

/// Vertex with the least value among the first `n`, the first of several.
pub open spec fn least_among(values: Seq<Double>, n: int) -> int
    decreases n,
{
    if n <= 1 {
        0
    } else {
        let b = least_among(values, n - 1);
        if values[n - 1].lt(values[b]) {
            n - 1
        } else {
            b
        }
    }
}

/// What a minimization finds: the best vertex and its value.
pub open spec fn simplex_minimum<F: Fn(Op, Double, Double) -> Double>(
    ar: Arithmetic<F>,
    obj: Objective,
    x0: Seq<Double>,
    step: Double,
    max_iter: nat,
) -> (Seq<Double>, Double) {
    let s = simplex_run(ar, obj, starting_simplex(ar, obj, x0, step), max_iter);
    let b = least_among(s.1, s.1.len() as int);
    (s.0[b], s.1[b])
}

/// A minimization from `x0` runs: there is something to vary, or it ends at
/// once.
pub open spec fn simplex_runs<F: Fn(Op, Double, Double) -> Double>(
    ar: Arithmetic<F>,
    obj: Objective,
    x0: Seq<Double>,
    max_iter: nat,
) -> bool {
    x0.len() > 0 || max_iter == 0 || converged(ar, seq![obj(x0)])
}

/// `pts` and `values` hold the simplex.
pub open spec fn holds_simplex(pts: Seq<Vec<Double>>, values: Seq<Double>, s: SimplexView) -> bool {
    &&& pts.len() == s.0.len()
    &&& values == s.1
    &&& forall|i: int| 0 <= i < pts.len() ==> (#[trigger] pts[i])@ == s.0[i]
}

/// A simplex of `n + 1` vertices with `n` coordinates, with its values.
pub open spec fn simplex_of(obj: Objective, s: SimplexView, n: nat) -> bool {
    &&& s.0.len() == n + 1
    &&& s.1.len() == n + 1
    &&& forall|i: int| 0 <= i <= n ==> (#[trigger] s.0[i]).len() == n
    &&& forall|i: int| 0 <= i <= n ==> #[trigger] s.1[i] == obj(s.0[i])
}

fn copy_point(x: &Vec<Double>) -> (y: Vec<Double>)
    ensures
        y@ == x@,
{
    copy_values(x)
}

/// `c + k (a - b)` by coordinate.
fn go_beyond<F: Fn(Op, Double, Double) -> Double>(
    c: &Vec<Double>,
    k: Double,
    a: &Vec<Double>,
    b: &Vec<Double>,
    ar: &Arithmetic<F>,
) -> (r: Vec<Double>)
    requires
        ar.total(),
        a@.len() == c@.len(),
        b@.len() == c@.len(),
    ensures
        r@ == beyond(*ar, c@, k, a@, b@),
{
    let mut r: Vec<Double> = Vec::new();
    for j in 0..c.len()
        invariant
            ar.total(),
            a@.len() == c@.len(),
            b@.len() == c@.len(),
            r@ =~= beyond(*ar, c@, k, a@, b@).take(j as int),
    {
        r.push(ar.plus(c[j], ar.times(k, ar.minus(a[j], b[j]))));
    }
    assert(r@ =~= beyond(*ar, c@, k, a@, b@));
    r
}

/// `c - k (c - w)` by coordinate.
fn go_within<F: Fn(Op, Double, Double) -> Double>(
    c: &Vec<Double>,
    k: Double,
    w: &Vec<Double>,
    ar: &Arithmetic<F>,
) -> (r: Vec<Double>)
    requires
        ar.total(),
        w@.len() == c@.len(),
    ensures
        r@ == within(*ar, c@, k, w@),
{
    let mut r: Vec<Double> = Vec::new();
    for j in 0..c.len()
        invariant
            ar.total(),
            w@.len() == c@.len(),
            r@ =~= within(*ar, c@, k, w@).take(j as int),
    {
        r.push(ar.minus(c[j], ar.times(k, ar.minus(c[j], w[j]))));
    }
    assert(r@ =~= within(*ar, c@, k, w@));
    r
}

/// Vertices and values in ascending order of value.
fn arrange(
    pts: &Vec<Vec<Double>>,
    values: &Vec<Double>,
    Ghost(s): Ghost<SimplexView>,
    Ghost(n): Ghost<nat>,
    Ghost(obj): Ghost<Objective>,
) -> (out: (Vec<Vec<Double>>, Vec<Double>))
    requires
        holds_simplex(pts@, values@, s),
        simplex_of(obj, s, n),
    ensures
        holds_simplex(out.0@, out.1@, arranged(s)),
        simplex_of(obj, arranged(s), n),
{
    let mut keys: Vec<i64> = Vec::new();
    for i in 0..values.len()
        invariant
            keys@ =~= total_keys(values@).take(i as int),
    {
        keys.push(values[i].total_key());
    }
    assert(keys@ =~= total_keys(s.1));
    let order: Vec<usize> = sort_positions(keys.as_slice());
    proof {
        let o = value_order(s.1);
        assert(stable_order(total_keys(s.1), order@));
        assert(stable_order(total_keys(s.1), o));
        stable_order_is_unique(total_keys(s.1), o, order@);
    }
    let ghost want = arranged(s);
    let mut sorted: Vec<Vec<Double>> = Vec::new();
    let mut sorted_values: Vec<Double> = Vec::new();
    for i in 0..order.len()
        invariant
            holds_simplex(pts@, values@, s),
            simplex_of(obj, s, n),
            order@ == value_order(s.1),
            stable_order(total_keys(s.1), order@),
            want == arranged(s),
            sorted.len() == i,
            sorted_values@ =~= want.1.take(i as int),
            forall|k: int| 0 <= k < i ==> (#[trigger] sorted@[k])@ == want.0[k],
    {
        let k: usize = order[i];
        assert(k < s.1.len());
        sorted.push(copy_point(&pts[k]));
        sorted_values.push(values[k]);
    }
    assert(sorted_values@ =~= want.1);
    assert(simplex_of(obj, want, n)) by {
        assert forall|i: int| 0 <= i <= n implies (#[trigger] want.0[i]).len() == n by {
            assert(order@[i] < s.1.len());
        }
        assert forall|i: int| 0 <= i <= n implies #[trigger] want.1[i] == obj(
            want.0[i],
        ) by {
            assert(order@[i] < s.1.len());
        }
    }
    (sorted, sorted_values)
}

/// Centroid of all vertices but the last.
fn find_centroid<F: Fn(Op, Double, Double) -> Double>(
    pts: &Vec<Vec<Double>>,
    n: usize,
    ar: &Arithmetic<F>,
    Ghost(s): Ghost<Seq<Seq<Double>>>,
) -> (c: Vec<Double>)
    requires
        ar.total(),
        n < 2 * HIDDEN,
        pts@.len() == n + 1,
        s.len() == n + 1,
        forall|i: int| 0 <= i <= n ==> (#[trigger] pts@[i])@ == s[i],
        forall|i: int| 0 <= i <= n ==> (#[trigger] s[i]).len() == n,
    ensures
        c@ == centroid(*ar, s),
{
    let ghost want = centroid(*ar, s);
    let mut c: Vec<Double> = Vec::new();
    for j in 0..n
        invariant
            ar.total(),
            n < 2 * HIDDEN,
            pts@.len() == n + 1,
            s.len() == n + 1,
            forall|i: int| 0 <= i <= n ==> (#[trigger] pts@[i])@ == s[i],
            forall|i: int| 0 <= i <= n ==> (#[trigger] s[i]).len() == n,
            want == centroid(*ar, s),
            c@ =~= want.take(j as int),
    {
        let mut x: Double = Double::zero();
        for m in 0..n
            invariant
                ar.total(),
                n < 2 * HIDDEN,
                j < n,
                pts@.len() == n + 1,
                s.len() == n + 1,
                forall|i: int| 0 <= i <= n ==> (#[trigger] pts@[i])@ == s[i],
                forall|i: int| 0 <= i <= n ==> (#[trigger] s[i]).len() == n,
                x == center_at(*ar, s, n as nat, j as int, m as int),
        {
            assert(pts@[m as int]@ == s[m as int]);
            assert(s[m as int].len() == n);
            x = ar.plus(x, ar.over(pts[m][j], Double::from_count(n)));
        }
        c.push(x);
    }
    assert(c@ =~= want);
    c
}

/// The simplex shrunk halfway toward its first vertex.
fn shrink<O: Fn(&Vec<Double>) -> Double, F: Fn(Op, Double, Double) -> Double>(
    pts: &Vec<Vec<Double>>,
    values: &Vec<Double>,
    f: &O,
    ar: &Arithmetic<F>,
    Ghost(s): Ghost<SimplexView>,
    Ghost(n): Ghost<nat>,
    Ghost(obj): Ghost<Objective>,
) -> (out: (Vec<Vec<Double>>, Vec<Double>))
    requires
        ar.total(),
        computes(*f, n, obj),
        holds_simplex(pts@, values@, s),
        simplex_of(obj, s, n),
    ensures
        holds_simplex(out.0@, out.1@, shrunk(*ar, obj, s)),
        simplex_of(obj, shrunk(*ar, obj, s), n),
{
    let ghost want = shrunk(*ar, obj, s);
    let mut near: Vec<Vec<Double>> = Vec::new();
    let mut near_values: Vec<Double> = Vec::new();
    assert(s.0[0].len() == n);
    for i in 0..pts.len()
        invariant
            ar.total(),
            computes(*f, n as nat, obj),
            holds_simplex(pts@, values@, s),
            simplex_of(obj, s, n),
            s.0[0].len() == n,
            want == shrunk(*ar, obj, s),
            near.len() == i,
            near_values@ =~= want.1.take(i as int),
            forall|k: int| 0 <= k < i ==> (#[trigger] near@[k])@ == want.0[k],
    {
        assert(s.0[i as int].len() == n);
        if i == 0 {
            near.push(copy_point(&pts[0]));
            near_values.push(values[0]);
        } else {
            let p: Vec<Double> = go_beyond(&pts[0], num(HALF), &pts[i], &pts[0], ar);
            let v: Double = f(&p);
            near.push(p);
            near_values.push(v);
        }
    }
    assert(near_values@ =~= want.1);
    assert forall|i: int| 0 <= i <= n implies #[trigger] want.1[i] == obj(want.0[i]) by {
        if i == 0 {
            assert(s.1[0] == obj(s.0[0]));
        }
    }
    assert forall|i: int| 0 <= i <= n implies (#[trigger] want.0[i]).len() == n by {
        assert(s.0[0].len() == n);
    }
    (near, near_values)
}

/// One step from an arranged simplex.
fn step_simplex<O: Fn(&Vec<Double>) -> Double, F: Fn(Op, Double, Double) -> Double>(
    pts: Vec<Vec<Double>>,
    values: Vec<Double>,
    n: usize,
    f: &O,
    ar: &Arithmetic<F>,
    Ghost(s): Ghost<SimplexView>,
    Ghost(obj): Ghost<Objective>,
) -> (out: (Vec<Vec<Double>>, Vec<Double>))
    requires
        ar.total(),
        computes(*f, n as nat, obj),
        0 < n < 2 * HIDDEN,
        holds_simplex(pts@, values@, s),
        simplex_of(obj, s, n as nat),
    ensures
        holds_simplex(out.0@, out.1@, simplex_step(*ar, obj, s)),
        simplex_of(obj, simplex_step(*ar, obj, s), n as nat),
{
    let c: Vec<Double> = find_centroid(&pts, n, ar, Ghost(s.0));
    assert(pts@[n as int]@ == s.0[n as int]);
    assert(s.0[n as int].len() == n);
    let xr: Vec<Double> = go_beyond(&c, num(ONE), &c, &pts[n], ar);
    let fr: Double = f(&xr);
    let (x, fx): (Vec<Double>, Double) = if fr.lt(values[0]) {
        let xe: Vec<Double> = go_beyond(&c, num(TWO), &c, &pts[n], ar);
        let fe: Double = f(&xe);
        if fe.lt(fr) {
            (xe, fe)
        } else {
            (xr, fr)
        }
    } else if fr.lt(values[n - 1]) {
        (xr, fr)
    } else {
        let xc: Vec<Double> = if fr.lt(values[n]) {
            go_beyond(&c, num(HALF), &xr, &c, ar)
        } else {
            go_within(&c, num(HALF), &pts[n], ar)
        };
        let fc: Double = f(&xc);
        if fc.lt(fr.min(values[n])) {
            (xc, fc)
        } else {
            return shrink(&pts, &values, f, ar, Ghost(s), Ghost(n as nat), Ghost(obj));
        }
    };
    let ghost want = replaced(obj, s, x@);
    assert(simplex_step(*ar, obj, s) == want);
    let mut new_pts: Vec<Vec<Double>> = pts;
    let mut new_values: Vec<Double> = values;
    new_pts.set(n, x);
    new_values.set(n, fx);
    assert(holds_simplex(new_pts@, new_values@, want));
    assert forall|i: int| 0 <= i <= n implies (#[trigger] want.0[i]).len() == n by {
        assert(s.0[i].len() == n);
    }
    assert forall|i: int| 0 <= i <= n implies #[trigger] want.1[i] == obj(want.0[i]) by {
        assert(s.1[i] == obj(s.0[i]));
    }
    (new_pts, new_values)
}

/// Minimizes an objective that computes `obj`.
pub(crate) fn minimize<O: Fn(&Vec<Double>) -> Double, F: Fn(Op, Double, Double) -> Double>(
    f: &O,
    x0: &Vec<Double>,
    step: Double,
    max_iter: usize,
    ar: &Arithmetic<F>,
    Ghost(obj): Ghost<Objective>,
) -> (r: (Vec<Double>, Double))
    requires
        ar.total(),
        computes(*f, x0@.len(), obj),
        x0@.len() < 2 * HIDDEN,
        x0@.len() < usize::MAX,
        simplex_runs(*ar, obj, x0@, max_iter as nat),
    ensures
        (r.0@, r.1) == simplex_minimum(*ar, obj, x0@, step, max_iter as nat),
        r.0@.len() == x0@.len(),
        r.1 == obj(r.0@),
{
    let n: usize = x0.len();
    let ghost begun = starting_simplex(*ar, obj, x0@, step);
    let mut pts: Vec<Vec<Double>> = Vec::new();
    let mut values: Vec<Double> = Vec::new();
    for i in 0..n + 1
        invariant
            ar.total(),
            computes(*f, n as nat, obj),
            n == x0.len(),
            begun == starting_simplex(*ar, obj, x0@, step),
            pts.len() == i,
            values@ =~= begun.1.take(i as int),
            forall|k: int| 0 <= k < i ==> (#[trigger] pts@[k])@ == begun.0[k],
    {
        let mut p: Vec<Double> = copy_point(x0);
        if i > 0 {
            let moved: Double = ar.plus(p[i - 1], step);
            p.set(i - 1, moved);
        }
        assert(p@ =~= begun.0[i as int]);
        let v: Double = f(&p);
        pts.push(p);
        values.push(v);
    }
    assert(values@ =~= begun.1);
    let ghost mut s = begun;
    let mut k: usize = max_iter;
    let mut done: bool = false;
    while k > 0 && !done
        invariant
            ar.total(),
            computes(*f, n as nat, obj),
            n == x0.len(),
            n < 2 * HIDDEN,
            begun == starting_simplex(*ar, obj, x0@, step),
            simplex_runs(*ar, obj, x0@, max_iter as nat),
            holds_simplex(pts@, values@, s),
            simplex_of(obj, s, n as nat),
            n == 0 ==> s == begun || done,
            k <= max_iter,
            if done {
                s == simplex_run(*ar, obj, begun, max_iter as nat)
            } else {
                simplex_run(*ar, obj, s, k as nat) == simplex_run(*ar, obj, begun, max_iter as nat)
            },
        decreases k,
    {
        let (sorted, sorted_values): (Vec<Vec<Double>>, Vec<Double>) = arrange(
            &pts,
            &values,
            Ghost(s),
            Ghost(n as nat),
            Ghost(obj),
        );
        let ghost a = arranged(s);
        if ar.minus(sorted_values[n], sorted_values[0]).abs().le(
            ar.times(num(SPREAD), sorted_values[0].abs().max(num(SPREAD))),
        ) {
            assert(converged(*ar, a.1));
            pts = sorted;
            values = sorted_values;
            proof {
                s = a;
            }
            done = true;
        } else {
            assert(!converged(*ar, a.1));
            proof {
                if n == 0 {
                    lemma_alone(begun);
                    assert(a.1 =~= seq![obj(x0@)]);
                }
            }
            let (p, v): (Vec<Vec<Double>>, Vec<Double>) = step_simplex(
                sorted,
                sorted_values,
                n,
                f,
                ar,
                Ghost(a),
                Ghost(obj),
            );
            pts = p;
            values = v;
            proof {
                s = simplex_step(*ar, obj, a);
            }
        }
        k = k - 1;
    }
    let ghost want = simplex_run(*ar, obj, begun, max_iter as nat);
    assert(s == want);
    let mut best: usize = 0;
    for i in 1..n + 1
        invariant
            n == x0.len(),
            values.len() == n + 1,
            best < i,
            best <= n,
            best == least_among(values@, i as int),
    {
        if values[i].lt(values[best]) {
            best = i;
        }
    }
    assert(pts@[best as int]@ == s.0[best as int]);
    assert(s.0[best as int].len() == n);
    assert(s.1[best as int] == obj(s.0[best as int]));
    (copy_point(&pts[best]), values[best])
}

/// Standard Nelder-Mead simplex minimization. Returns the best parameter vector
/// found and its objective value.
pub fn nelder_mead<O: Fn(&Vec<Double>) -> Double, F: Fn(Op, Double, Double) -> Double>(
    f: &O,
    x0: &Vec<Double>,
    step: Double,
    max_iter: usize,
    ar: &Arithmetic<F>,
) -> (r: (Vec<Double>, Double))
    requires
        ar.total(),
        objective_total(*f, x0@.len()),
        x0@.len() < 2 * HIDDEN,
        x0@.len() < usize::MAX,
        simplex_runs(*ar, objective_of(*f), x0@, max_iter as nat),
    ensures
        (r.0@, r.1) == simplex_minimum(*ar, objective_of(*f), x0@, step, max_iter as nat),
        r.0@.len() == x0@.len(),
        r.1 == objective(*f, r.0@),
{
    minimize(f, x0, step, max_iter, ar, Ghost(objective_of(*f)))
}

/// A single vertex is arranged as it is.
proof fn lemma_alone(s: SimplexView)
    requires
        s.0.len() == 1,
        s.1.len() == 1,
    ensures
        arranged(s).1[0] == s.1[0],
        arranged(s).1.len() == 1,
{
    let keys = total_keys(s.1);
    let o = seq![0usize];
    assert(o.contains(0usize)) by {
        assert(o[0] == 0usize);
    }
    assert forall|p: usize| 0 <= p < 1 implies #[trigger] o.contains(p) by {
        assert(p == 0);
    }
    assert(stable_order(keys, o));
    let c = value_order(s.1);
    assert(stable_order(keys, c));
    assert(c[0] < 1);
}

/// Some value is a number no greater than `bound`.
pub open spec fn reaches(values: Seq<Double>, bound: Double) -> bool {
    exists|i: int|
        0 <= i < values.len() && !(#[trigger] values[i]).nan() && values[i].at_most(bound)
}

/// No value of the objective is a NaN that sorts below all numbers.
pub open spec fn sorts_last(obj: Objective) -> bool {
    forall|x: Seq<Double>| !((#[trigger] obj(x)).nan() && obj(x).negative())
}

/// The values of a simplex have a stable order.
proof fn lemma_order_exists(obj: Objective, s: SimplexView, n: nat)
    requires
        simplex_of(obj, s, n),
        n < usize::MAX,
    ensures
        stable_order(total_keys(s.1), value_order(s.1)),
{
    stable_order_exists(total_keys(s.1));
}

/// The first value of an arranged simplex is within reach, too.
proof fn lemma_arranged_reaches(obj: Objective, s: SimplexView, n: nat, bound: Double)
    requires
        n < usize::MAX,
        simplex_of(obj, s, n),
        sorts_last(obj),
        reaches(s.1, bound),
    ensures
        simplex_of(obj, arranged(s), n),
        !arranged(s).1[0].nan(),
        arranged(s).1[0].at_most(bound),
{
    lemma_order_exists(obj, s, n);
    let o = value_order(s.1);
    let keys = total_keys(s.1);
    let a = arranged(s);
    let i = choose|i: int|
        0 <= i < s.1.len() && !(#[trigger] s.1[i]).nan() && s.1[i].at_most(bound);
    assert(o.contains(i as usize));
    let p = choose|p: int| 0 <= p < o.len() && o[p] == i as usize;
    let first = o[0] as int;
    assert(0 <= first < s.1.len());
    if p != 0 {
        assert(precedes(keys, o[0], o[p]));
    }
    assert(keys[first] <= keys[i]);
    assert(s.1[first] == obj(s.0[first]));
    assert(s.1[first].total() <= s.1[i].total());
    lemma_no_greater(s.1[first], s.1[i]);
    assert forall|k: int| 0 <= k <= n implies (#[trigger] a.0[k]).len() == n by {
        assert(o[k] < s.1.len());
        assert(s.0[o[k] as int].len() == n);
    }
    assert forall|k: int| 0 <= k <= n implies #[trigger] a.1[k] == obj(a.0[k]) by {
        assert(o[k] < s.1.len());
        assert(s.1[o[k] as int] == obj(s.0[o[k] as int]));
    }
}

/// What comes first among values is a number where some number does.
proof fn lemma_no_greater(a: Double, b: Double)
    requires
        !(a.nan() && a.negative()),
        !b.nan(),
        a.total() <= b.total(),
    ensures
        !a.nan(),
        a.at_most(b),
{
    if !a.nan() {
        lemma_total_refines_below(a, b);
    }
}

proof fn lemma_step_keeps_shape<F: Fn(Op, Double, Double) -> Double>(
    ar: Arithmetic<F>,
    obj: Objective,
    s: SimplexView,
    n: nat,
)
    requires
        0 < n,
        simplex_of(obj, s, n),
    ensures
        simplex_of(obj, simplex_step(ar, obj, s), n),
{
    let next = simplex_step(ar, obj, s);
    assert(s.0[0].len() == n);
    assert forall|i: int| 0 <= i <= n implies (#[trigger] next.0[i]).len() == n by {
        assert(s.0[i].len() == n);
    }
    assert forall|i: int| 0 <= i <= n implies #[trigger] next.1[i] == obj(next.0[i]) by {
        assert(s.1[i] == obj(s.0[i]));
    }
}

/// The least among values is within reach where some value is and none before
/// the first number is NaN.
proof fn lemma_least_reaches(values: Seq<Double>, m: int, bound: Double)
    requires
        0 < m <= values.len(),
        !values[0].nan(),
        exists|i: int| 0 <= i < m && !(#[trigger] values[i]).nan() && values[i].at_most(bound),
    ensures
        0 <= least_among(values, m) < m,
        !values[least_among(values, m)].nan(),
        values[least_among(values, m)].at_most(bound),
    decreases m,
{
    lemma_least_is_a_number(values, m);
    let i = choose|i: int|
        0 <= i < m && !(#[trigger] values[i]).nan() && values[i].at_most(bound);
    lemma_least_is_least(values, m, i);
}

proof fn lemma_least_is_a_number(values: Seq<Double>, m: int)
    requires
        0 < m <= values.len(),
        !values[0].nan(),
    ensures
        0 <= least_among(values, m) < m,
        !values[least_among(values, m)].nan(),
    decreases m,
{
    if m > 1 {
        lemma_least_is_a_number(values, m - 1);
    }
}

proof fn lemma_least_is_least(values: Seq<Double>, m: int, i: int)
    requires
        0 < m <= values.len(),
        !values[0].nan(),
        0 <= i < m,
        !values[i].nan(),
    ensures
        values[least_among(values, m)].at_most(values[i]),
    decreases m,
{
    lemma_least_is_a_number(values, m);
    if m > 1 {
        lemma_least_is_a_number(values, m - 1);
        if i < m - 1 {
            lemma_least_is_least(values, m - 1, i);
        }
    }
}

/// A minimization never ends above the value at its start: if that value is a
/// number, so is the result, and it is no greater.
pub proof fn minimum_is_no_worse_than_start<F: Fn(Op, Double, Double) -> Double>(
    ar: Arithmetic<F>,
    obj: Objective,
    x0: Seq<Double>,
    step: Double,
    max_iter: nat,
)
    requires
        0 < x0.len() < usize::MAX,
        !obj(x0).nan(),
        sorts_last(obj),
    ensures
        simplex_minimum(ar, obj, x0, step, max_iter).1.at_most(obj(x0)),
{
    let begun = starting_simplex(ar, obj, x0, step);
    let n = x0.len();
    assert(begun.0[0] == x0);
    assert(begun.1[0] == obj(x0));
    lemma_first_reaches(ar, obj, begun, n, max_iter, obj(x0));
    let s = simplex_run(ar, obj, begun, max_iter);
    assert(reaches(s.1, obj(x0)));
    lemma_least_reaches(s.1, s.1.len() as int, obj(x0));
}

/// A minimization never ends above the value at a vertex of its starting simplex. At
/// the vertex it starts from, that value is a number where no iteration is made.
pub proof fn minimum_is_no_worse_than_any_vertex<F: Fn(Op, Double, Double) -> Double>(
    ar: Arithmetic<F>,
    obj: Objective,
    x0: Seq<Double>,
    step: Double,
    max_iter: nat,
    i: int,
)
    requires
        0 < x0.len() < usize::MAX,
        0 <= i <= x0.len(),
        !starting_simplex(ar, obj, x0, step).1[i].nan(),
        max_iter > 0 || !obj(x0).nan(),
        sorts_last(obj),
    ensures
        simplex_minimum(ar, obj, x0, step, max_iter).1.at_most(
            starting_simplex(ar, obj, x0, step).1[i],
        ),
{
    let begun = starting_simplex(ar, obj, x0, step);
    let n = x0.len();
    let bound = begun.1[i];
    assert(begun.1[0] == obj(x0));
    assert(reaches(begun.1, bound));
    let s = simplex_run(ar, obj, begun, max_iter);
    if max_iter > 0 {
        lemma_arranged_reaches(obj, begun, n, bound);
        let a = arranged(begun);
        if !converged(ar, a.1) {
            let next = simplex_step(ar, obj, a);
            assert(next.1[0] == a.1[0]);
            lemma_step_keeps_shape(ar, obj, a, n);
            lemma_first_reaches(ar, obj, next, n, (max_iter - 1) as nat, bound);
        }
        assert(reaches(s.1, bound));
    }
    lemma_least_reaches(s.1, s.1.len() as int, bound);
}

/// The first value of a run is a number within reach.
proof fn lemma_first_reaches<F: Fn(Op, Double, Double) -> Double>(
    ar: Arithmetic<F>,
    obj: Objective,
    s: SimplexView,
    n: nat,
    k: nat,
    bound: Double,
)
    requires
        0 < n < usize::MAX,
        simplex_of(obj, s, n),
        sorts_last(obj),
        !s.1[0].nan(),
        s.1[0].at_most(bound),
    ensures
        !simplex_run(ar, obj, s, k).1[0].nan(),
        simplex_run(ar, obj, s, k).1[0].at_most(bound),
        simplex_of(obj, simplex_run(ar, obj, s, k), n),
    decreases k,
{
    if k > 0 {
        assert(reaches(s.1, bound));
        lemma_arranged_reaches(obj, s, n, bound);
        let a = arranged(s);
        if !converged(ar, a.1) {
            let next = simplex_step(ar, obj, a);
            assert(next.1[0] == a.1[0]);
            lemma_step_keeps_shape(ar, obj, a, n);
            lemma_first_reaches(ar, obj, next, n, (k - 1) as nat, bound);
        }
    }
}

/// Best of the runs from the first `k` starts: the first with the least value.
pub open spec fn best_simplex<F: Fn(Op, Double, Double) -> Double>(
    ar: Arithmetic<F>,
    obj: Objective,
    starts: Seq<Vec<Double>>,
    step: Double,
    max_iter: nat,
    k: int,
) -> (Seq<Double>, Double)
    decreases k,
{
    let last = simplex_minimum(ar, obj, starts[k - 1]@, step, max_iter);
    if k <= 1 {
        last
    } else {
        let before = best_simplex(ar, obj, starts, step, max_iter, k - 1);
        if last.1.lt(before.1) {
            last
        } else {
            before
        }
    }
}

/// Runs [`nelder_mead`] from each start and keeps the best optimum found. There
/// is at least one start.
pub fn nelder_mead_multistart<O: Fn(&Vec<Double>) -> Double, F: Fn(Op, Double, Double) -> Double>(
    f: &O,
    starts: &Vec<Vec<Double>>,
    step: Double,
    max_iter: usize,
    ar: &Arithmetic<F>,
) -> (r: (Vec<Double>, Double))
    requires
        ar.total(),
                starts@.len() > 0,
        forall|i: int|
            0 <= i < starts@.len() ==> (#[trigger] starts@[i])@.len() < 2 * HIDDEN && starts@[i]@.len()
                < usize::MAX && objective_total(*f, starts@[i]@.len()) && simplex_runs(
                    *ar,
                    objective_of(*f),
                    starts@[i]@,
                    max_iter as nat,
                ),
    ensures
        (r.0@, r.1) == best_simplex(
            *ar,
            objective_of(*f),
            starts@,
            step,
            max_iter as nat,
            starts@.len() as int,
        ),
        r.1 == objective(*f, r.0@),
{
    let mut best: (Vec<Double>, Double) = nelder_mead(f, &starts[0], step, max_iter, ar);
    for i in 1..starts.len()
        invariant
            ar.total(),
                        forall|k: int|
                0 <= k < starts@.len() ==> (#[trigger] starts@[k])@.len() < 2 * HIDDEN
                    && starts@[k]@.len() < usize::MAX && objective_total(*f, starts@[k]@.len())
                    && simplex_runs(
                    *ar,
                    objective_of(*f),
                    starts@[k]@,
                    max_iter as nat,
                ),
            (best.0@, best.1) == best_simplex(
                *ar,
                objective_of(*f),
                starts@,
                step,
                max_iter as nat,
                i as int,
            ),
            best.1 == objective(*f, best.0@),
    {
        let found: (Vec<Double>, Double) = nelder_mead(f, &starts[i], step, max_iter, ar);
        if found.1.lt(best.1) {
            best = found;
        }
    }
    best
}

// ---------------------------------------------------------------------------
// BFGS
// ---------------------------------------------------------------------------

/// `g` may be computed for the point `x`.
pub open spec fn gradient_gives<H: Fn(&Vec<Double>) -> Vec<Double>>(
    grad: H,
    x: Seq<Double>,
    g: Seq<Double>,
) -> bool {
    exists|v: Vec<Double>, r: Vec<Double>|
        v@ == x && r@ == g && #[trigger] call_ensures(grad, (&v,), r)
}

/// Gradient at a point.
pub open spec fn gradient<H: Fn(&Vec<Double>) -> Vec<Double>>(grad: H, x: Seq<Double>) -> Seq<Double> {
    choose|g: Seq<Double>| gradient_gives(grad, x, g)
}

/// The gradient can be computed at every point of `n` coordinates, and is one
/// vector of `n` coordinates.
pub open spec fn gradient_total<H: Fn(&Vec<Double>) -> Vec<Double>>(grad: H, n: nat) -> bool {
    &&& forall|x: &Vec<Double>| x@.len() == n ==> #[trigger] call_requires(grad, (x,))
    &&& forall|x: &Vec<Double>, r: Vec<Double>|
        x@.len() == n && #[trigger] call_ensures(grad, (x,), r) ==> r@ == gradient(grad, x@)
            && r@.len() == n
}

/// Product of two vectors.
pub open spec fn product<F: Fn(Op, Double, Double) -> Double>(
    ar: Arithmetic<F>,
    a: Seq<Double>,
    b: Seq<Double>,
) -> Double {
    ar.dot_from(num(MINUS_ZERO), a, b, a.len() as int)
}

/// The unit matrix.
pub open spec fn unit_matrix(n: nat) -> Seq<Seq<Double>> {
    Seq::new(
        n,
        |i: int|
            Seq::new(
                n,
                |j: int|
                    if i == j {
                        num(ONE)
                    } else {
                        num(0)
                    },
            ),
    )
}

/// Column `j` of a matrix.
pub open spec fn column(m: Seq<Seq<Double>>, j: int) -> Seq<Double> {
    Seq::new(m.len(), |k: int| m[k][j])
}

/// Product of two square matrices.
pub open spec fn matrix_product<F: Fn(Op, Double, Double) -> Double>(
    ar: Arithmetic<F>,
    a: Seq<Seq<Double>>,
    b: Seq<Seq<Double>>,
) -> Seq<Seq<Double>> {
    Seq::new(
        a.len(),
        |i: int|
            Seq::new(
                a.len(),
                |j: int| ar.dot_from(num(0), a[i], column(b, j), a.len() as int),
            ),
    )
}

/// `I - rho u v'`.
pub open spec fn deflated<F: Fn(Op, Double, Double) -> Double>(
    ar: Arithmetic<F>,
    rho: Double,
    u: Seq<Double>,
    v: Seq<Double>,
) -> Seq<Seq<Double>> {
    Seq::new(
        u.len(),
        |i: int|
            Seq::new(
                u.len(),
                |j: int|
                    ar.minus(
                        unit_matrix(u.len())[i][j],
                        ar.times(rho, ar.times(u[i], v[j])),
                    ),
            ),
    )
}

/// Inverse-Hessian update: `(I - rho s y') H (I - rho y s') + rho s s'` with
/// `rho = 1 / s'y`.
pub open spec fn updated<F: Fn(Op, Double, Double) -> Double>(
    ar: Arithmetic<F>,
    h: Seq<Seq<Double>>,
    s: Seq<Double>,
    y: Seq<Double>,
    sy: Double,
) -> Seq<Seq<Double>> {
    let rho = ar.over(num(ONE), sy);
    let m = matrix_product(
        ar,
        matrix_product(ar, deflated(ar, rho, s, y), h),
        deflated(ar, rho, y, s),
    );
    Seq::new(
        s.len(),
        |i: int|
            Seq::new(
                s.len(),
                |j: int| ar.plus(m[i][j], ar.times(rho, ar.times(s[i], s[j]))),
            ),
    )
}

/// `-H v`.
pub open spec fn against<F: Fn(Op, Double, Double) -> Double>(
    ar: Arithmetic<F>,
    h: Seq<Seq<Double>>,
    v: Seq<Double>,
) -> Seq<Double> {
    Seq::new(v.len(), |i: int| ar.dot_from(num(MINUS_ZERO), h[i], v, v.len() as int).neg())
}

/// One, halved `k` times.
pub open spec fn halved<F: Fn(Op, Double, Double) -> Double>(ar: Arithmetic<F>, k: nat) -> Double
    decreases k,
{
    if k == 0 {
        num(ONE)
    } else {
        ar.times(halved(ar, (k - 1) as nat), num(HALF))
    }
}

/// Halving one goes below the shortest step.
pub open spec fn halves<F: Fn(Op, Double, Double) -> Double>(ar: Arithmetic<F>) -> bool {
    halved(ar, HALVINGS as nat).lt(num(SHORTEST))
}

/// `x + alpha p`.
pub open spec fn moved<F: Fn(Op, Double, Double) -> Double>(
    ar: Arithmetic<F>,
    x: Seq<Double>,
    alpha: Double,
    p: Seq<Double>,
) -> Seq<Double> {
    Seq::new(x.len(), |i: int| ar.plus(x[i], ar.times(alpha, p[i])))
}

/// The line search takes the step of `k` halvings: it decreases the value
/// enough, or it is as short as steps get.
pub open spec fn step_taken<O: Fn(&Vec<Double>) -> Double, F: Fn(Op, Double, Double) -> Double>(
    ar: Arithmetic<F>,
    f: O,
    x: Seq<Double>,
    fx: Double,
    p: Seq<Double>,
    slope: Double,
    k: nat,
) -> bool {
    let alpha = halved(ar, k);
    ||| objective(f, moved(ar, x, alpha, p)).le(
        ar.plus(fx, ar.times(ar.times(num(DECREASE), alpha), slope)),
    )
    ||| alpha.lt(num(SHORTEST))
}

/// Halvings of the first step that the line search takes, from `k` on.
pub open spec fn halvings_from<O: Fn(&Vec<Double>) -> Double, F: Fn(Op, Double, Double) -> Double>(
    ar: Arithmetic<F>,
    f: O,
    x: Seq<Double>,
    fx: Double,
    p: Seq<Double>,
    slope: Double,
    k: nat,
) -> nat
    decreases HALVINGS - k,
{
    if k >= HALVINGS || step_taken(ar, f, x, fx, p, slope, k) {
        k
    } else {
        halvings_from(ar, f, x, fx, p, slope, k + 1)
    }
}

/// A state of the minimization: point, inverse Hessian, gradient, value.
#[verifier::ext_equal]
pub struct BfgsState {
    /// Point.
    pub x: Seq<Double>,
    /// Approximate inverse Hessian.
    pub h: Seq<Seq<Double>>,
    /// Gradient at the point.
    pub g: Seq<Double>,
    /// Value at the point.
    pub fx: Double,
}

/// The gradient all but vanishes.
pub open spec fn level<F: Fn(Op, Double, Double) -> Double>(ar: Arithmetic<F>, g: Seq<Double>) -> bool {
    ar.sqrt(product(ar, g, g)).lt(num(FLAT))
}

/// Inverse Hessian, direction and slope of a step: steepest descent where the
/// Hessian gives no descent.
pub open spec fn direction<F: Fn(Op, Double, Double) -> Double>(ar: Arithmetic<F>, st: BfgsState) -> (
    Seq<Seq<Double>>,
    Seq<Double>,
    Double,
) {
    let p = against(ar, st.h, st.g);
    let slope = product(ar, st.g, p);
    if num(0).le(slope) {
        let q = Seq::new(st.g.len(), |i: int| st.g[i].neg());
        (unit_matrix(st.g.len()), q, product(ar, st.g, q))
    } else {
        (st.h, p, slope)
    }
}

/// The state after one step, and whether it hardly moved.
pub open spec fn bfgs_step<O: Fn(&Vec<Double>) -> Double, H: Fn(&Vec<Double>) -> Vec<Double>, F: Fn(Op, Double, Double) -> Double>(
    ar: Arithmetic<F>,
    f: O,
    grad: H,
    st: BfgsState,
) -> (BfgsState, bool) {
    let (h, p, slope) = direction(ar, st);
    let k = halvings_from(ar, f, st.x, st.fx, p, slope, 0);
    let x = moved(ar, st.x, halved(ar, k), p);
    let fx = objective(f, x);
    let g = gradient(grad, x);
    let s = ar.separation(x, st.x);
    let y = ar.separation(g, st.g);
    let sy = product(ar, s, y);
    let stalled = {
        &&& ar.minus(st.fx, fx).abs().le(
            ar.times(num(STALL), ar.plus(num(ONE), st.fx.abs())),
        )
        &&& ar.sqrt(product(ar, s, s)).le(
            ar.times(num(FLAT), ar.plus(num(ONE), ar.sqrt(product(ar, st.x, st.x)))),
        )
    };
    let h2 = if num(FLAT).lt(sy) {
        updated(ar, h, s, y, sy)
    } else {
        h
    };
    (BfgsState { x, h: h2, g, fx }, stalled)
}

/// The state after at most `n` steps.
pub open spec fn bfgs_run<O: Fn(&Vec<Double>) -> Double, H: Fn(&Vec<Double>) -> Vec<Double>, F: Fn(Op, Double, Double) -> Double>(
    ar: Arithmetic<F>,
    f: O,
    grad: H,
    st: BfgsState,
    n: nat,
) -> BfgsState
    decreases n,
{
    if n == 0 || level(ar, st.g) {
        st
    } else {
        let (next, stalled) = bfgs_step(ar, f, grad, st);
        if stalled {
            next
        } else {
            bfgs_run(ar, f, grad, next, (n - 1) as nat)
        }
    }
}

/// The state at the start.
pub open spec fn bfgs_start<O: Fn(&Vec<Double>) -> Double, H: Fn(&Vec<Double>) -> Vec<Double>>(
    f: O,
    grad: H,
    x0: Seq<Double>,
) -> BfgsState {
    BfgsState {
        x: x0,
        h: unit_matrix(x0.len()),
        g: gradient(grad, x0),
        fx: objective(f, x0),
    }
}

/// What a minimization finds: the last point and its value.
pub open spec fn bfgs_minimum<O: Fn(&Vec<Double>) -> Double, H: Fn(&Vec<Double>) -> Vec<Double>, F: Fn(Op, Double, Double) -> Double>(
    ar: Arithmetic<F>,
    f: O,
    grad: H,
    x0: Seq<Double>,
    max_iter: nat,
) -> (Seq<Double>, Double) {
    let st = bfgs_run(ar, f, grad, bfgs_start(f, grad, x0), max_iter);
    (st.x, st.fx)
}

/// The rows are those of the matrix, of order `n`.
pub open spec fn are_rows(rows: Seq<Vec<Double>>, m: Seq<Seq<Double>>, n: nat) -> bool {
    &&& rows.len() == n
    &&& m.len() == n
    &&& forall|i: int| 0 <= i < n ==> (#[trigger] rows[i])@ == m[i] && m[i].len() == n
}

fn build_unit(n: usize) -> (rows: Vec<Vec<Double>>)
    ensures
        are_rows(rows@, unit_matrix(n as nat), n as nat),
{
    let mut rows: Vec<Vec<Double>> = Vec::new();
    for i in 0..n
        invariant
            rows.len() == i,
            forall|k: int| 0 <= k < i ==> (#[trigger] rows@[k])@ == unit_matrix(n as nat)[k],
    {
        let mut row: Vec<Double> = Vec::new();
        for j in 0..n
            invariant
                i < n,
                row@ =~= unit_matrix(n as nat)[i as int].take(j as int),
        {
            if i == j {
                row.push(num(ONE));
            } else {
                row.push(Double::zero());
            }
        }
        assert(row@ =~= unit_matrix(n as nat)[i as int]);
        rows.push(row);
    }
    rows
}

fn build_deflated<F: Fn(Op, Double, Double) -> Double>(
    rho: Double,
    u: &Vec<Double>,
    v: &Vec<Double>,
    n: usize,
    ar: &Arithmetic<F>,
) -> (rows:
    Vec<Vec<Double>>)
    requires
        ar.total(),
        u@.len() == n,
        v@.len() == n,
    ensures
        are_rows(rows@, deflated(*ar, rho, u@, v@), n as nat),
{
    let ghost want = deflated(*ar, rho, u@, v@);
    let mut rows: Vec<Vec<Double>> = Vec::new();
    for i in 0..n
        invariant
            ar.total(),
            u@.len() == n,
            v@.len() == n,
            want == deflated(*ar, rho, u@, v@),
            rows.len() == i,
            forall|k: int| 0 <= k < i ==> (#[trigger] rows@[k])@ == want[k],
    {
        let mut row: Vec<Double> = Vec::new();
        for j in 0..n
            invariant
                ar.total(),
                i < n,
                u@.len() == n,
                v@.len() == n,
                want == deflated(*ar, rho, u@, v@),
                row@ =~= want[i as int].take(j as int),
        {
            let one: Double = if i == j {
                num(ONE)
            } else {
                Double::zero()
            };
            row.push(ar.minus(one, ar.times(rho, ar.times(u[i], v[j]))));
        }
        assert(row@ =~= want[i as int]);
        rows.push(row);
    }
    rows
}

fn multiply<F: Fn(Op, Double, Double) -> Double>(
    a: &Vec<Vec<Double>>,
    b: &Vec<Vec<Double>>,
    n: usize,
    ar: &Arithmetic<F>,
    Ghost(ma): Ghost<Seq<Seq<Double>>>,
    Ghost(mb): Ghost<Seq<Seq<Double>>>,
) -> (rows: Vec<Vec<Double>>)
    requires
        ar.total(),
        are_rows(a@, ma, n as nat),
        are_rows(b@, mb, n as nat),
    ensures
        are_rows(rows@, matrix_product(*ar, ma, mb), n as nat),
{
    let ghost want = matrix_product(*ar, ma, mb);
    let mut rows: Vec<Vec<Double>> = Vec::new();
    for i in 0..n
        invariant
            ar.total(),
            are_rows(a@, ma, n as nat),
            are_rows(b@, mb, n as nat),
            want == matrix_product(*ar, ma, mb),
            rows.len() == i,
            forall|k: int| 0 <= k < i ==> (#[trigger] rows@[k])@ == want[k],
    {
        let mut row: Vec<Double> = Vec::new();
        assert(a@[i as int]@ == ma[i as int]);
        for j in 0..n
            invariant
                ar.total(),
                i < n,
                are_rows(a@, ma, n as nat),
                are_rows(b@, mb, n as nat),
                a@[i as int]@ == ma[i as int],
                want == matrix_product(*ar, ma, mb),
                row@ =~= want[i as int].take(j as int),
        {
            let mut x: Double = Double::zero();
            for k in 0..n
                invariant
                    ar.total(),
                    i < n,
                    j < n,
                    are_rows(a@, ma, n as nat),
                    are_rows(b@, mb, n as nat),
                    a@[i as int]@ == ma[i as int],
                    x == ar.dot_from(num(0), ma[i as int], column(mb, j as int), k as int),
            {
                assert(b@[k as int]@ == mb[k as int]);
                x = ar.plus(x, ar.times(a[i][k], b[k][j]));
            }
            row.push(x);
        }
        assert(row@ =~= want[i as int]);
        rows.push(row);
    }
    rows
}

/// Inverse-Hessian update.
fn bfgs_update<F: Fn(Op, Double, Double) -> Double>(
    h: &Vec<Vec<Double>>,
    s: &Vec<Double>,
    y: &Vec<Double>,
    sy: Double,
    n: usize,
    ar: &Arithmetic<F>,
    Ghost(m): Ghost<Seq<Seq<Double>>>,
) -> (rows: Vec<Vec<Double>>)
    requires
        ar.total(),
        are_rows(h@, m, n as nat),
        s@.len() == n,
        y@.len() == n,
    ensures
        are_rows(rows@, updated(*ar, m, s@, y@, sy), n as nat),
{
    let rho: Double = ar.over(num(ONE), sy);
    let left: Vec<Vec<Double>> = build_deflated(rho, s, y, n, ar);
    let right: Vec<Vec<Double>> = build_deflated(rho, y, s, n, ar);
    let ghost ml = deflated(*ar, rho, s@, y@);
    let ghost mr = deflated(*ar, rho, y@, s@);
    let lh: Vec<Vec<Double>> = multiply(&left, h, n, ar, Ghost(ml), Ghost(m));
    let ghost mlh = matrix_product(*ar, ml, m);
    let core: Vec<Vec<Double>> = multiply(&lh, &right, n, ar, Ghost(mlh), Ghost(mr));
    let ghost mc = matrix_product(*ar, mlh, mr);
    let ghost want = updated(*ar, m, s@, y@, sy);
    let mut rows: Vec<Vec<Double>> = Vec::new();
    for i in 0..n
        invariant
            ar.total(),
            s@.len() == n,
            are_rows(core@, mc, n as nat),
            rho == ar.over(num(ONE), sy),
            mlh == matrix_product(*ar, deflated(*ar, rho, s@, y@), m),
            mc == matrix_product(*ar, mlh, deflated(*ar, rho, y@, s@)),
            want == updated(*ar, m, s@, y@, sy),
            rows.len() == i,
            forall|k: int| 0 <= k < i ==> (#[trigger] rows@[k])@ == want[k],
    {
        let mut row: Vec<Double> = Vec::new();
        assert(core@[i as int]@ == mc[i as int]);
        for j in 0..n
            invariant
                ar.total(),
                i < n,
                s@.len() == n,
                core@.len() == n,
                core@[i as int]@ == mc[i as int],
                mc[i as int].len() == n,
                rho == ar.over(num(ONE), sy),
                mlh == matrix_product(*ar, deflated(*ar, rho, s@, y@), m),
                mc == matrix_product(*ar, mlh, deflated(*ar, rho, y@, s@)),
                want == updated(*ar, m, s@, y@, sy),
                row@ =~= want[i as int].take(j as int),
        {
            row.push(ar.plus(core[i][j], ar.times(rho, ar.times(s[i], s[j]))));
        }
        assert(row@ =~= want[i as int]);
        rows.push(row);
    }
    rows
}

/// `-H v`.
fn neg_mat_vec<F: Fn(Op, Double, Double) -> Double>(
    h: &Vec<Vec<Double>>,
    v: &Vec<Double>,
    n: usize,
    ar: &Arithmetic<F>,
    Ghost(m): Ghost<Seq<Seq<Double>>>,
) -> (r: Vec<Double>)
    requires
        ar.total(),
        are_rows(h@, m, n as nat),
        v@.len() == n,
    ensures
        r@ == against(*ar, m, v@),
{
    let mut r: Vec<Double> = Vec::new();
    for i in 0..n
        invariant
            ar.total(),
            are_rows(h@, m, n as nat),
            v@.len() == n,
            r@ =~= against(*ar, m, v@).take(i as int),
    {
        assert(h@[i as int]@ == m[i as int]);
        r.push(ar.dot(num(MINUS_ZERO), &h[i], v, n).neg());
    }
    assert(r@ =~= against(*ar, m, v@));
    r
}

/// `a - b` by coordinate.
fn less<F: Fn(Op, Double, Double) -> Double>(
    a: &Vec<Double>,
    b: &Vec<Double>,
    ar: &Arithmetic<F>,
) -> (r: Vec<Double>)
    requires
        ar.total(),
        a@.len() == b@.len(),
    ensures
        r@ == ar.separation(a@, b@),
{
    let mut r: Vec<Double> = Vec::new();
    for i in 0..a.len()
        invariant
            ar.total(),
            a@.len() == b@.len(),
            r@ =~= ar.separation(a@, b@).take(i as int),
    {
        r.push(ar.minus(a[i], b[i]));
    }
    assert(r@ =~= ar.separation(a@, b@));
    r
}

/// The backtracking line search: the point it stops at and the value there.
fn search_line<O: Fn(&Vec<Double>) -> Double, F: Fn(Op, Double, Double) -> Double>(
    f: &O,
    x: &Vec<Double>,
    fx: Double,
    p: &Vec<Double>,
    slope: Double,
    ar: &Arithmetic<F>,
) -> (r: (Vec<Double>, Double))
    requires
        ar.total(),
        halves(*ar),
        objective_total(*f, x@.len()),
        p@.len() == x@.len(),
    ensures
        r.0@ == moved(
            *ar,
            x@,
            halved(*ar, halvings_from(*ar, *f, x@, fx, p@, slope, 0)),
            p@,
        ),
        r.1 == objective(*f, r.0@),
{
    let ghost want = halvings_from(*ar, *f, x@, fx, p@, slope, 0);
    let mut alpha: Double = num(ONE);
    let mut k: usize = 0;
    loop
        invariant
            ar.total(),
            halves(*ar),
            objective_total(*f, x@.len()),
            p@.len() == x@.len(),
            k <= HALVINGS,
            alpha == halved(*ar, k as nat),
            want == halvings_from(*ar, *f, x@, fx, p@, slope, k as nat),
            want == halvings_from(*ar, *f, x@, fx, p@, slope, 0),
        decreases HALVINGS - k,
    {
        let mut cand: Vec<Double> = Vec::new();
        for i in 0..x.len()
            invariant
                ar.total(),
                p@.len() == x@.len(),
                cand@ =~= moved(*ar, x@, alpha, p@).take(i as int),
        {
            cand.push(ar.plus(x[i], ar.times(alpha, p[i])));
        }
        assert(cand@ =~= moved(*ar, x@, alpha, p@));
        let value: Double = f(&cand);
        if value.le(ar.plus(fx, ar.times(ar.times(num(DECREASE), alpha), slope))) || alpha.lt(
            num(SHORTEST),
        ) {
            assert(step_taken(*ar, *f, x@, fx, p@, slope, k as nat));
            return (cand, value);
        }
        assert(!step_taken(*ar, *f, x@, fx, p@, slope, k as nat));
        assert(k != HALVINGS);
        alpha = ar.times(alpha, num(HALF));
        k = k + 1;
    }
}

/// BFGS quasi-Newton minimization with a backtracking line search, using the
/// gradient given. Falls back to steepest descent for one step where the
/// approximate Hessian gives no descent direction. Stops on a small gradient or
/// on negligible progress.
pub fn bfgs<O: Fn(&Vec<Double>) -> Double, H: Fn(&Vec<Double>) -> Vec<Double>, F: Fn(Op, Double, Double) -> Double>(
    f: &O,
    grad: &H,
    x0: &Vec<Double>,
    max_iter: usize,
    ar: &Arithmetic<F>,
) -> (r: (Vec<Double>, Double))
    requires
        ar.total(),
        halves(*ar),
        objective_total(*f, x0@.len()),
        gradient_total(*grad, x0@.len()),
    ensures
        (r.0@, r.1) == bfgs_minimum(*ar, *f, *grad, x0@, max_iter as nat),
        r.1 == objective(*f, r.0@),
        r.0@.len() == x0@.len(),
{
    let n: usize = x0.len();
    let ghost begun = bfgs_start(*f, *grad, x0@);
    let ghost want = bfgs_run(*ar, *f, *grad, begun, max_iter as nat);
    let mut x: Vec<Double> = copy_point(x0);
    let mut h: Vec<Vec<Double>> = build_unit(n);
    let mut g: Vec<Double> = grad(&x);
    let mut fx: Double = f(&x);
    let ghost mut st = begun;
    let mut k: usize = max_iter;
    while k > 0
        invariant
            ar.total(),
            halves(*ar),
            objective_total(*f, n as nat),
            gradient_total(*grad, n as nat),
            n == x0.len(),
            x@ == st.x,
            x@.len() == n,
            are_rows(h@, st.h, n as nat),
            g@ == st.g,
            g@.len() == n,
            fx == st.fx,
            fx == objective(*f, x@),
            want == bfgs_run(*ar, *f, *grad, begun, max_iter as nat),
            begun == bfgs_start(*f, *grad, x0@),
            want == bfgs_run(*ar, *f, *grad, st, k as nat),
        decreases k,
    {
        if ar.sqrt(ar.dot(num(MINUS_ZERO), &g, &g, n)).lt(num(FLAT)) {
            assert(level(*ar, st.g));
            return (x, fx);
        }
        let ghost dir = direction(*ar, st);
        let mut p: Vec<Double> = neg_mat_vec(&h, &g, n, ar, Ghost(st.h));
        let mut slope: Double = ar.dot(num(MINUS_ZERO), &g, &p, n);
        if Double::zero().le(slope) {
            h = build_unit(n);
            p = negate(&g);
            slope = ar.dot(num(MINUS_ZERO), &g, &p, n);
        }
        assert(are_rows(h@, dir.0, n as nat));
        assert(p@ == dir.1);
        assert(slope == dir.2);
        let (x_new, f_new): (Vec<Double>, Double) = search_line(f, &x, fx, &p, slope, ar);
        let g_new: Vec<Double> = grad(&x_new);
        let s: Vec<Double> = less(&x_new, &x, ar);
        let y: Vec<Double> = less(&g_new, &g, ar);
        let sy: Double = ar.dot(num(MINUS_ZERO), &s, &y, n);
        if num(FLAT).lt(sy) {
            h = bfgs_update(&h, &s, &y, sy, n, ar, Ghost(dir.0));
        }
        let stalled: bool = ar.minus(fx, f_new).abs().le(
            ar.times(num(STALL), ar.plus(num(ONE), fx.abs())),
        ) && ar.sqrt(ar.dot(num(MINUS_ZERO), &s, &s, n)).le(
            ar.times(
                num(FLAT),
                ar.plus(num(ONE), ar.sqrt(ar.dot(num(MINUS_ZERO), &x, &x, n))),
            ),
        );
        let ghost next = bfgs_step(*ar, *f, *grad, st);
        assert(next.1 == stalled);
        x = x_new;
        g = g_new;
        fx = f_new;
        proof {
            st = next.0;
        }
        k = k - 1;
        if stalled {
            return (x, fx);
        }
    }
    (x, fx)
}

fn negate(v: &Vec<Double>) -> (r: Vec<Double>)
    ensures
        r@ == Seq::new(v@.len(), |i: int| v@[i].neg()),
{
    let mut r: Vec<Double> = Vec::new();
    for i in 0..v.len()
        invariant
            r.len() == i,
            forall|k: int| 0 <= k < i ==> #[trigger] r@[k] == v@[k].neg(),
    {
        r.push(v[i].neg());
    }
    assert(r@ =~= Seq::new(v@.len(), |i: int| v@[i].neg()));
    r
}

/// Best of the runs from the first `k` starts: the first with the least value.
pub open spec fn best_bfgs<O: Fn(&Vec<Double>) -> Double, H: Fn(&Vec<Double>) -> Vec<Double>, F: Fn(Op, Double, Double) -> Double>(
    ar: Arithmetic<F>,
    f: O,
    grad: H,
    starts: Seq<Vec<Double>>,
    max_iter: nat,
    k: int,
) -> (Seq<Double>, Double)
    decreases k,
{
    let last = bfgs_minimum(ar, f, grad, starts[k - 1]@, max_iter);
    if k <= 1 {
        last
    } else {
        let before = best_bfgs(ar, f, grad, starts, max_iter, k - 1);
        if last.1.lt(before.1) {
            last
        } else {
            before
        }
    }
}

/// Runs [`bfgs`] from each start and keeps the best optimum found. There is at
/// least one start.
pub fn bfgs_multistart<O: Fn(&Vec<Double>) -> Double, H: Fn(&Vec<Double>) -> Vec<Double>, F: Fn(Op, Double, Double) -> Double>(
    f: &O,
    grad: &H,
    starts: &Vec<Vec<Double>>,
    max_iter: usize,
    ar: &Arithmetic<F>,
) -> (r: (Vec<Double>, Double))
    requires
        ar.total(),
        halves(*ar),
        starts@.len() > 0,
        forall|i: int|
            0 <= i < starts@.len() ==> gradient_total(*grad, (#[trigger] starts@[i])@.len())
                && objective_total(*f, starts@[i]@.len()),
    ensures
        (r.0@, r.1) == best_bfgs(
            *ar,
            *f,
            *grad,
            starts@,
            max_iter as nat,
            starts@.len() as int,
        ),
        r.1 == objective(*f, r.0@),
{
    let mut best: (Vec<Double>, Double) = bfgs(f, grad, &starts[0], max_iter, ar);
    for i in 1..starts.len()
        invariant
            ar.total(),
            halves(*ar),
            forall|k: int|
                0 <= k < starts@.len() ==> gradient_total(*grad, (#[trigger] starts@[k])@.len())
                    && objective_total(*f, starts@[k]@.len()),
            (best.0@, best.1) == best_bfgs(*ar, *f, *grad, starts@, max_iter as nat, i as int),
            best.1 == objective(*f, best.0@),
    {
        let found: (Vec<Double>, Double) = bfgs(f, grad, &starts[i], max_iter, ar);
        if found.1.lt(best.1) {
            best = found;
        }
    }
    best
}

} // verus!

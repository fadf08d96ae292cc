//! Kriging over an arithmetic without rounding: it honors the data and reproduces the
//! drift.

use vstd::prelude::*;

use crate::arith::{num, Arithmetic, Op};
use crate::covariance::{no_separation, Covariance};
use crate::double::{Double, ONE};
use crate::exact::{
    all_numbers, applied, closed, elimination_finds_the_solution, elimination_satisfies_the_system,
    exact, lemma_dot_start, span_sum, square_of, Numbers,
};
use crate::kriging::{KrigingEstimate, KrigingMethod, Setting};
use crate::linalg::solution;

verus! {

/// The semivariance is that of the reversed separation, and zero at none.
pub open spec fn symmetric<const D: usize, F: Fn(Op, Double, Double) -> Double, G: Fn([Double; D]) -> Double>(
    ar: Arithmetic<F>,
    model: Covariance<D, G>,
) -> bool {
    &&& forall|p: Seq<Double>, q: Seq<Double>|
        #![trigger model.semivariance(ar.separation(p, q))]
        p.len() == D && q.len() == D ==> model.semivariance(ar.separation(p, q))
            == model.semivariance(ar.separation(q, p))
    &&& model.semivariance(no_separation(D as nat)) == num(0)
}

/// What kriging from these conditioning points computes with is numbers.
pub open spec fn computes_in<'a, const D: usize, F: Fn(Op, Double, Double) -> Double, G: Fn([Double; D]) -> Double>(
    s: &Setting<'a, D, G>,
    ar: Arithmetic<F>,
    c: Numbers,
    nb: Seq<usize>,
) -> bool {
    &&& exact(ar, c)
    &&& nb.len() + s.terms() <= usize::MAX
    &&& square_of(c, s.lhs(ar, nb))
    &&& all_numbers(c, s.values_at(nb))
    &&& c(s.model.sill)
    &&& s.config.method matches KrigingMethod::Simple { mean } ==> c(mean)
}

/// The list whose element `j` is one and whose others are zero.
pub open spec fn unit_at(dim: nat, j: int) -> Seq<Double> {
    Seq::new(
        dim,
        |i: int|
            if i == j {
                num(ONE)
            } else {
                num(0)
            },
    )
}

/// A row picks its element from a list that is zero elsewhere.
pub(crate) proof fn lemma_unit_picks<F: Fn(Op, Double, Double) -> Double>(
    ar: Arithmetic<F>,
    c: Numbers,
    row: Seq<Double>,
    dim: nat,
    j: int,
    hi: int,
)
    requires
        exact(ar, c),
        all_numbers(c, row),
        row.len() == dim,
        0 <= j < dim,
        0 <= hi <= dim,
    ensures
        span_sum(ar, row, unit_at(dim, j), 0, hi) == (if j < hi {
            row[j]
        } else {
            num(0)
        }),
    decreases hi,
{
    if hi > 0 {
        lemma_unit_picks(ar, c, row, dim, j, hi - 1);
        assert(c(row[hi - 1]));
        closed(ar, c, row[hi - 1], num(0));
        closed(ar, c, num(0), num(0));
        if j < hi - 1 {
            assert(c(row[j]));
            closed(ar, c, row[j], row[j]);
        }
    }
}

/// Weights that are zero elsewhere pick their element.
pub(crate) proof fn lemma_unit_dot<F: Fn(Op, Double, Double) -> Double>(
    ar: Arithmetic<F>,
    c: Numbers,
    start: Double,
    xs: Seq<Double>,
    dim: nat,
    j: int,
    n: int,
)
    requires
        exact(ar, c),
        c(start),
        all_numbers(c, xs),
        0 <= n <= xs.len(),
        n <= dim,
        0 <= j < dim,
    ensures
        ar.dot_from(start, unit_at(dim, j), xs, n) == (if j < n {
            ar.plus(start, xs[j])
        } else {
            start
        }),
    decreases n,
{
    if n > 0 {
        lemma_unit_dot(ar, c, start, xs, dim, j, n - 1);
        assert(c(xs[n - 1]));
        closed(ar, c, xs[n - 1], xs[n - 1]);
        closed(ar, c, start, start);
        if j < n - 1 {
            assert(c(xs[j]));
            closed(ar, c, start, xs[j]);
            closed(ar, c, ar.plus(start, xs[j]), num(0));
        }
    }
}

/// A number less itself is zero, and less zero is itself.
pub proof fn lemma_differences<F: Fn(Op, Double, Double) -> Double>(ar: Arithmetic<F>, c: Numbers, a: Double)
    requires
        exact(ar, c),
        c(a),
    ensures
        ar.minus(a, a) == num(0),
        ar.minus(a, num(0)) == a,
{
    closed(ar, c, a, a);
    closed(ar, c, a, num(0));
    closed(ar, c, ar.minus(a, num(0)), num(0));
    assert(crate::exact::triple_law(ar, c, ar.minus(a, a), num(0), a));
}

/// The right-hand side at a data point is the column of that point.
proof fn lemma_rhs_at_data<'a, const D: usize, F: Fn(Op, Double, Double) -> Double, G: Fn([Double; D]) -> Double>(
    s: &Setting<'a, D, G>,
    ar: Arithmetic<F>,
    c: Numbers,
    nb: Seq<usize>,
    j: int,
    target: Seq<Double>,
    drift: Seq<Double>,
)
    requires
        computes_in(s, ar, c, nb),
        symmetric(ar, *s.model),
        s.measurement_error@.len() == 0,
        0 <= j < nb.len(),
        target == s.data.places()[nb[j] as int]@,
        all_numbers(c, target),
        drift == s.drift_at(nb[j] as int),
    ensures
        s.rhs(ar, nb, target, drift) == applied(
            ar,
            s.lhs(ar, nb),
            unit_at(nb.len() + s.terms(), j),
        ),
        s.rhs(ar, nb, target, drift)[j] == s.model.entry(ar, no_separation(D as nat)),
        c(s.model.entry(ar, no_separation(D as nat))),
{
    let dim = nb.len() + s.terms();
    let b = s.rhs(ar, nb, target, drift);
    let m = s.lhs(ar, nb);
    let x = unit_at(dim, j);
    let zero = no_separation(D as nat);
    assert(ar.separation(target, target) =~= zero) by {
        assert forall|d: int| 0 <= d < D implies ar.separation(target, target)[d] == zero[d] by {
            assert(c(target[d]));
            lemma_differences(ar, c, target[d]);
        }
    }
    lemma_differences(ar, c, s.model.sill);
    closed(ar, c, num(0), num(0));
    let e0 = s.model.entry(ar, zero);
    assert(c(e0));
    closed(ar, c, e0, num(0));
    assert forall|r: int| 0 <= r < dim implies b[r] == applied(ar, m, x)[r] by {
        assert(m[r].len() == m.len() && all_numbers(c, m[r]));
        lemma_unit_picks(ar, c, m[r], dim, j, dim as int);
        assert(m[r][j] == s.lhs_cell(ar, nb, r, j));
        if r < nb.len() {
            let p = s.data.places()[nb[r] as int]@;
            assert(b[r] == s.model.entry(ar, ar.separation(p, target)));
            if r == j {
                assert(s.error_at(nb[r] as int) == num(0));
            } else if r > j {
                assert(s.model.semivariance(ar.separation(p, target)) == s.model.semivariance(
                    ar.separation(target, p),
                ));
            }
        }
    }
    assert(b =~= applied(ar, m, x));
}

/// Kriging is exact at the data: at a data point among the conditioning points, without
/// measurement error, it gives the value of that point, with no variance and, where there
/// is a multiplier, none of it.
pub proof fn exact_at_the_data<'a, const D: usize, F: Fn(Op, Double, Double) -> Double, G: Fn([Double; D]) -> Double>(
    s: &Setting<'a, D, G>,
    ar: Arithmetic<F>,
    c: Numbers,
    nb: Seq<usize>,
    j: int,
    target: [Double; D],
    drift: Seq<Double>,
    e: KrigingEstimate,
)
    requires
        computes_in(s, ar, c, nb),
        symmetric(ar, *s.model),
        s.measurement_error@.len() == 0,
        0 <= j < nb.len(),
        target@ == s.data.places()[nb[j] as int]@,
        all_numbers(c, target@),
        drift == s.drift_at(nb[j] as int),
        s.kriged(ar, target, drift, nb, Ok(e)),
    ensures
        e.value == s.data.attributes()[nb[j] as int],
        e.variance == num(0),
        s.terms() > 0 ==> e.lagrange == Some(num(0)),
{
    let dim = nb.len() + s.terms();
    let n = nb.len() as int;
    let m = s.lhs(ar, nb);
    let b = s.rhs(ar, nb, target@, drift);
    let x = unit_at(dim, j);
    lemma_rhs_at_data(s, ar, c, nb, j, target@, drift);
    let w = choose|w: Seq<Double>| #[trigger]
        solution(ar, m, b, w) && e == s.weighted(ar, nb, w, b, s.top());
    closed(ar, c, num(0), num(ONE));
    assert(all_numbers(c, x));
    elimination_finds_the_solution(ar, c, m, b, x, w);
    let v = s.values_at(nb)[j];
    assert(c(s.values_at(nb)[j]));
    lemma_unit_dot(ar, c, num(0), s.values_at(nb), dim, j, n);
    lemma_dot_start(ar, c, x, s.values_at(nb), n);
    closed(ar, c, v, num(0));
    let used = match s.config.method {
        KrigingMethod::Simple { .. } => n,
        _ => b.len() as int,
    };
    assert forall|r: int| 0 <= r < b.len() implies c(#[trigger] b[r]) by {
        assert(m[r].len() == m.len() && all_numbers(c, m[r]));
        lemma_unit_picks(ar, c, m[r], dim, j, dim as int);
        assert(c(m[r][j]));
    }
    lemma_unit_dot(ar, c, num(0), b, dim, j, used);
    lemma_dot_start(ar, c, x, b, used);
    let e0 = s.model.entry(ar, no_separation(D as nat));
    closed(ar, c, e0, num(0));
    lemma_differences(ar, c, s.model.sill);
    if let KrigingMethod::Simple { mean } = s.config.method {
        let centered = s.centered_at(ar, nb, mean);
        assert forall|i: int| 0 <= i < centered.len() implies c(#[trigger] centered[i]) by {
            assert(c(s.values_at(nb)[i]));
            closed(ar, c, s.values_at(nb)[i], mean);
        }
        lemma_unit_dot(ar, c, mean, centered, dim, j, n);
        closed(ar, c, v, mean);
        closed(ar, c, ar.minus(v, mean), mean);
    }
}

/// Drift term `t` at the conditioning points.
pub open spec fn term_at<'a, const D: usize, F: Fn(Op, Double, Double) -> Double, G: Fn([Double; D]) -> Double>(
    s: &Setting<'a, D, G>,
    ar: Arithmetic<F>,
    nb: Seq<usize>,
    t: int,
) -> Seq<Double> {
    Seq::new(nb.len(), |i: int| s.basis_at(ar, nb[i] as int)[t])
}

/// The weights reproduce the drift: applied to a drift term at the conditioning points,
/// they give the term at the target. The first term is one, so weights sum to one.
pub proof fn weights_reproduce_the_drift<'a, const D: usize, F: Fn(Op, Double, Double) -> Double, G: Fn([Double; D]) -> Double>(
    s: &Setting<'a, D, G>,
    ar: Arithmetic<F>,
    c: Numbers,
    nb: Seq<usize>,
    target: Seq<Double>,
    drift: Seq<Double>,
    w: Seq<Double>,
    t: int,
)
    requires
        computes_in(s, ar, c, nb),
        all_numbers(c, s.rhs(ar, nb, target, drift)),
        0 <= t < s.terms(),
        solution(ar, s.lhs(ar, nb), s.rhs(ar, nb, target, drift), w),
    ensures
        span_sum(ar, term_at(s, ar, nb, t), w, 0, nb.len() as int) == s.basis(
            ar,
            target,
            drift,
        )[t],
        t == 0 ==> forall|i: int|
            0 <= i < nb.len() ==> #[trigger] term_at(s, ar, nb, t)[i] == num(ONE),
{
    let m = s.lhs(ar, nb);
    let b = s.rhs(ar, nb, target, drift);
    let n = nb.len() as int;
    let dim = nb.len() + s.terms();
    elimination_satisfies_the_system(ar, c, m, b, w);
    let r = n + t;
    let row = m[r];
    assert(row.len() == m.len() && all_numbers(c, row));
    assert(b[r] == span_sum(ar, row, w, 0, dim as int));
    lemma_zero_tail(ar, c, row, w, n, dim as int);
    crate::exact::lemma_span_agrees(ar, row, term_at(s, ar, nb, t), w, w, 0, n);
    if t == 0 {
        assert forall|i: int| 0 <= i < nb.len() implies #[trigger] term_at(s, ar, nb, t)[i] == num(
            ONE,
        ) by {}
    }
}

/// Where a row is zero from `n` on, it adds nothing to a sum.
pub(crate) proof fn lemma_zero_tail<F: Fn(Op, Double, Double) -> Double>(
    ar: Arithmetic<F>,
    c: Numbers,
    row: Seq<Double>,
    w: Seq<Double>,
    n: int,
    hi: int,
)
    requires
        exact(ar, c),
        all_numbers(c, row),
        all_numbers(c, w),
        0 <= n <= hi,
        hi <= row.len(),
        hi <= w.len(),
        forall|i: int| n <= i < hi ==> #[trigger] row[i] == num(0),
    ensures
        span_sum(ar, row, w, 0, hi) == span_sum(ar, row, w, 0, n),
    decreases hi,
{
    if hi > n {
        lemma_zero_tail(ar, c, row, w, n, hi - 1);
        assert(row[hi - 1] == num(0));
        assert(c(w[hi - 1]));
        closed(ar, c, w[hi - 1], num(0));
        crate::exact::lemma_span_closed(ar, c, row, w, 0, n);
        closed(ar, c, span_sum(ar, row, w, 0, n), num(0));
    }
}

/// As many ones as there are elements make up their number, which is not zero.
pub open spec fn counts<F: Fn(Op, Double, Double) -> Double>(ar: Arithmetic<F>, c: Numbers, n: nat) -> bool {
    &&& c(Double::count(n))
    &&& Double::count(n) != num(0)
    &&& ar.total_of(Seq::new(n, |u: int| num(ONE))) == Double::count(n)
}

/// A sum of numbers is a number.
pub(crate) proof fn lemma_total_closed<F: Fn(Op, Double, Double) -> Double>(ar: Arithmetic<F>, c: Numbers, xs: Seq<Double>)
    requires
        exact(ar, c),
        all_numbers(c, xs),
    ensures
        c(ar.accumulated(xs)),
    decreases xs.len(),
{
    if xs.len() > 0 {
        assert(c(xs.last())) by {
            assert(c(xs[xs.len() - 1]));
        }
        assert forall|i: int| 0 <= i < xs.drop_last().len() implies c(
            #[trigger] xs.drop_last()[i],
        ) by {
            assert(c(xs[i]));
        }
        lemma_total_closed(ar, c, xs.drop_last());
        closed(ar, c, ar.accumulated(xs.drop_last()), xs.last());
    }
}

/// A multiple of a sum is the sum of the multiples.
pub(crate) proof fn lemma_total_scaled<F: Fn(Op, Double, Double) -> Double>(
    ar: Arithmetic<F>,
    c: Numbers,
    a: Double,
    xs: Seq<Double>,
    ys: Seq<Double>,
)
    requires
        exact(ar, c),
        c(a),
        all_numbers(c, xs),
        ys.len() == xs.len(),
        forall|i: int| 0 <= i < xs.len() ==> #[trigger] ys[i] == ar.times(a, xs[i]),
    ensures
        ar.accumulated(ys) == ar.times(a, ar.accumulated(xs)),
    decreases xs.len(),
{
    closed(ar, c, a, a);
    if xs.len() > 0 {
        let x0 = xs.drop_last();
        let y0 = ys.drop_last();
        assert forall|i: int| 0 <= i < x0.len() implies c(#[trigger] x0[i]) by {
            assert(c(xs[i]));
        }
        assert forall|i: int| 0 <= i < x0.len() implies #[trigger] y0[i] == ar.times(a, x0[i]) by {
            assert(ys[i] == ar.times(a, xs[i]));
        }
        lemma_total_scaled(ar, c, a, x0, y0);
        lemma_total_closed(ar, c, x0);
        assert(c(xs[xs.len() - 1]));
        assert(ys[xs.len() - 1] == ar.times(a, xs[xs.len() - 1]));
        assert(crate::exact::triple_law(ar, c, a, ar.accumulated(x0), xs.last()));
    }
}

/// The sum of sums is the sum of all.
pub(crate) proof fn lemma_total_added<F: Fn(Op, Double, Double) -> Double>(
    ar: Arithmetic<F>,
    c: Numbers,
    xs: Seq<Double>,
    ys: Seq<Double>,
    zs: Seq<Double>,
)
    requires
        exact(ar, c),
        all_numbers(c, xs),
        all_numbers(c, ys),
        ys.len() == xs.len(),
        zs.len() == xs.len(),
        forall|i: int| 0 <= i < xs.len() ==> #[trigger] zs[i] == ar.plus(xs[i], ys[i]),
    ensures
        ar.accumulated(zs) == ar.plus(ar.accumulated(xs), ar.accumulated(ys)),
    decreases xs.len(),
{
    if xs.len() == 0 {
        closed(ar, c, num(0), num(0));
    } else {
        let x0 = xs.drop_last();
        let y0 = ys.drop_last();
        let z0 = zs.drop_last();
        assert forall|i: int| 0 <= i < x0.len() implies c(#[trigger] x0[i]) by {
            assert(c(xs[i]));
        }
        assert forall|i: int| 0 <= i < y0.len() implies c(#[trigger] y0[i]) by {
            assert(c(ys[i]));
        }
        assert forall|i: int| 0 <= i < x0.len() implies #[trigger] z0[i] == ar.plus(x0[i], y0[i]) by {
            assert(zs[i] == ar.plus(xs[i], ys[i]));
        }
        lemma_total_added(ar, c, x0, y0, z0);
        lemma_total_closed(ar, c, x0);
        lemma_total_closed(ar, c, y0);
        let k = xs.len() - 1;
        assert(c(xs[k]) && c(ys[k]));
        assert(zs[k] == ar.plus(xs[k], ys[k]));
        crate::exact::plus_shuffles(
            ar,
            c,
            ar.accumulated(x0),
            ar.accumulated(y0),
            xs[k],
            ys[k],
        );
    }
}

/// The average of numbers is a number, and makes up their sum.
pub(crate) proof fn lemma_average_closed<F: Fn(Op, Double, Double) -> Double>(ar: Arithmetic<F>, c: Numbers, xs: Seq<Double>)
    requires
        exact(ar, c),
        counts(ar, c, xs.len()),
        all_numbers(c, xs),
    ensures
        c(ar.average_of(xs)),
        ar.times(ar.average_of(xs), Double::count(xs.len())) == ar.accumulated(xs),
        ar.total_of(xs) == ar.accumulated(xs),
        xs.len() > 0,
{
    assert(xs.len() > 0) by {
        if xs.len() == 0 {
            assert(Double::count(0) == num(0));
        }
    }
    lemma_total_closed(ar, c, xs);
    crate::exact::lemma_total_start(ar, c, xs);
    closed(ar, c, ar.accumulated(xs), Double::count(xs.len()));
}

/// A multiple of an average is the average of the multiples.
proof fn lemma_average_scaled<F: Fn(Op, Double, Double) -> Double>(
    ar: Arithmetic<F>,
    c: Numbers,
    a: Double,
    xs: Seq<Double>,
    ys: Seq<Double>,
)
    requires
        exact(ar, c),
        counts(ar, c, xs.len()),
        c(a),
        all_numbers(c, xs),
        ys.len() == xs.len(),
        forall|i: int| 0 <= i < xs.len() ==> #[trigger] ys[i] == ar.times(a, xs[i]),
    ensures
        ar.average_of(ys) == ar.times(a, ar.average_of(xs)),
        all_numbers(c, ys),
{
    let q = Double::count(xs.len());
    assert forall|i: int| 0 <= i < ys.len() implies c(#[trigger] ys[i]) by {
        assert(ys[i] == ar.times(a, xs[i]));
        assert(c(xs[i]));
        closed(ar, c, a, xs[i]);
    }
    lemma_average_closed(ar, c, xs);
    lemma_average_closed(ar, c, ys);
    lemma_total_scaled(ar, c, a, xs, ys);
    let m = ar.average_of(xs);
    closed(ar, c, a, m);
    crate::exact::times_associates(ar, c, a, m, q);
    crate::exact::times_cancels(ar, c, ar.average_of(ys), ar.times(a, m), q);
}

/// The average of sums is the sum of the averages.
pub(crate) proof fn lemma_average_added<F: Fn(Op, Double, Double) -> Double>(
    ar: Arithmetic<F>,
    c: Numbers,
    xs: Seq<Double>,
    ys: Seq<Double>,
    zs: Seq<Double>,
)
    requires
        exact(ar, c),
        counts(ar, c, xs.len()),
        all_numbers(c, xs),
        all_numbers(c, ys),
        ys.len() == xs.len(),
        zs.len() == xs.len(),
        forall|i: int| 0 <= i < xs.len() ==> #[trigger] zs[i] == ar.plus(xs[i], ys[i]),
    ensures
        ar.average_of(zs) == ar.plus(ar.average_of(xs), ar.average_of(ys)),
        all_numbers(c, zs),
{
    let q = Double::count(xs.len());
    assert forall|i: int| 0 <= i < zs.len() implies c(#[trigger] zs[i]) by {
        assert(zs[i] == ar.plus(xs[i], ys[i]));
        assert(c(xs[i]) && c(ys[i]));
        closed(ar, c, xs[i], ys[i]);
    }
    lemma_average_closed(ar, c, xs);
    lemma_average_closed(ar, c, ys);
    lemma_average_closed(ar, c, zs);
    lemma_total_added(ar, c, xs, ys, zs);
    let a = ar.average_of(xs);
    let b = ar.average_of(ys);
    closed(ar, c, a, b);
    crate::exact::distributes(ar, c, q, a, b);
    closed(ar, c, q, a);
    closed(ar, c, q, b);
    closed(ar, c, q, ar.plus(a, b));
    crate::exact::times_cancels(ar, c, ar.average_of(zs), ar.plus(a, b), q);
}

/// The average of equal numbers is that number.
pub(crate) proof fn lemma_average_of_equals<F: Fn(Op, Double, Double) -> Double>(ar: Arithmetic<F>, c: Numbers, a: Double, n: nat)
    requires
        exact(ar, c),
        counts(ar, c, n),
        c(a),
    ensures
        ar.average_of(Seq::new(n, |u: int| a)) == a,
{
    let ones = Seq::new(n, |u: int| num(ONE));
    let xs = Seq::new(n, |u: int| a);
    let q = Double::count(n);
    closed(ar, c, a, num(ONE));
    closed(ar, c, q, q);
    closed(ar, c, num(ONE), q);
    assert(ar.average_of(ones) == ar.over(q, q));
    crate::exact::times_cancels(ar, c, ar.over(q, q), num(ONE), q);
    lemma_average_scaled(ar, c, a, ones, xs);
}

/// Element `i` of each list.
pub open spec fn across_lists(lists: Seq<Seq<Double>>, i: int) -> Seq<Double> {
    Seq::new(lists.len(), |u: int| lists[u][i])
}

/// The averages of lists, element by element.
pub open spec fn averaged<F: Fn(Op, Double, Double) -> Double>(
    ar: Arithmetic<F>,
    lists: Seq<Seq<Double>>,
    dim: nat,
) -> Seq<Double> {
    Seq::new(dim, |i: int| ar.average_of(across_lists(lists, i)))
}

/// What a row makes of averages is the average of what it makes.
pub(crate) proof fn lemma_span_averaged<F: Fn(Op, Double, Double) -> Double>(
    ar: Arithmetic<F>,
    c: Numbers,
    row: Seq<Double>,
    lists: Seq<Seq<Double>>,
    dim: nat,
    hi: int,
)
    requires
        exact(ar, c),
        counts(ar, c, lists.len()),
        all_numbers(c, row),
        0 <= hi <= dim,
        hi <= row.len(),
        forall|u: int|
            0 <= u < lists.len() ==> (#[trigger] lists[u]).len() == dim && all_numbers(
                c,
                lists[u],
            ),
    ensures
        span_sum(ar, row, averaged(ar, lists, dim), 0, hi) == ar.average_of(
            Seq::new(lists.len(), |u: int| span_sum(ar, row, lists[u], 0, hi)),
        ),
        all_numbers(c, Seq::new(lists.len(), |u: int| span_sum(ar, row, lists[u], 0, hi))),
    decreases hi,
{
    let sums = Seq::new(lists.len(), |u: int| span_sum(ar, row, lists[u], 0, hi));
    assert forall|u: int| 0 <= u < sums.len() implies c(#[trigger] sums[u]) by {
        assert(lists[u].len() == dim && all_numbers(c, lists[u]));
        crate::exact::lemma_span_closed(ar, c, row, lists[u], 0, hi);
    }
    if hi == 0 {
        lemma_average_of_equals(ar, c, num(0), lists.len());
        assert(sums =~= Seq::new(lists.len(), |u: int| num(0)));
    } else {
        lemma_span_averaged(ar, c, row, lists, dim, hi - 1);
        let before = Seq::new(lists.len(), |u: int| span_sum(ar, row, lists[u], 0, hi - 1));
        let col = across_lists(lists, hi - 1);
        assert forall|u: int| 0 <= u < col.len() implies c(#[trigger] col[u]) by {
            assert(lists[u].len() == dim && all_numbers(c, lists[u]));
            assert(c(lists[u][hi - 1]));
        }
        assert(c(row[hi - 1]));
        let scaled = Seq::new(lists.len(), |u: int| ar.times(row[hi - 1], col[u]));
        lemma_average_scaled(ar, c, row[hi - 1], col, scaled);
        lemma_average_added(ar, c, before, scaled, sums);
    }
}

/// A dot product from a start is the start and the sum of the products.
pub(crate) proof fn lemma_dot_is_span<F: Fn(Op, Double, Double) -> Double>(
    ar: Arithmetic<F>,
    c: Numbers,
    start: Double,
    w: Seq<Double>,
    v: Seq<Double>,
    n: int,
)
    requires
        exact(ar, c),
        c(start),
        all_numbers(c, w),
        all_numbers(c, v),
        0 <= n <= w.len(),
        n <= v.len(),
    ensures
        ar.dot_from(start, w, v, n) == ar.plus(start, span_sum(ar, v, w, 0, n)),
    decreases n,
{
    closed(ar, c, start, start);
    if n > 0 {
        lemma_dot_is_span(ar, c, start, w, v, n - 1);
        crate::exact::lemma_span_closed(ar, c, v, w, 0, n - 1);
        assert(c(w[n - 1]) && c(v[n - 1]));
        closed(ar, c, w[n - 1], v[n - 1]);
        crate::exact::plus_associates(
            ar,
            c,
            start,
            span_sum(ar, v, w, 0, n - 1),
            ar.times(v[n - 1], w[n - 1]),
        );
    }
}

/// The solution for averaged right-hand sides is the average of their solutions.
pub(crate) proof fn lemma_solution_averaged<F: Fn(Op, Double, Double) -> Double>(
    ar: Arithmetic<F>,
    c: Numbers,
    m: Seq<Seq<Double>>,
    sides: Seq<Seq<Double>>,
    ws: Seq<Seq<Double>>,
    w: Seq<Double>,
)
    requires
        exact(ar, c),
        square_of(c, m),
        m.len() <= usize::MAX,
        counts(ar, c, sides.len()),
        ws.len() == sides.len(),
        forall|u: int|
            0 <= u < sides.len() ==> (#[trigger] sides[u]).len() == m.len() && all_numbers(
                c,
                sides[u],
            ) && solution(ar, m, sides[u], ws[u]),
        solution(ar, m, averaged(ar, sides, m.len()), w),
    ensures
        forall|u: int|
            0 <= u < ws.len() ==> (#[trigger] ws[u]).len() == m.len() && all_numbers(c, ws[u]),
        all_numbers(c, averaged(ar, ws, m.len())),
        w == averaged(ar, ws, m.len()),
{
    let dim = m.len();
    let b = averaged(ar, sides, dim);
    let x = averaged(ar, ws, dim);
    assert forall|u: int| 0 <= u < ws.len() implies (#[trigger] ws[u]).len() == dim && all_numbers(
        c,
        ws[u],
    ) && sides[u] == applied(ar, m, ws[u]) by {
        assert(sides[u].len() == m.len());
        elimination_satisfies_the_system(ar, c, m, sides[u], ws[u]);
    }
    assert forall|i: int| 0 <= i < x.len() implies c(#[trigger] x[i]) by {
        let col = across_lists(ws, i);
        assert forall|u: int| 0 <= u < col.len() implies c(#[trigger] col[u]) by {
            assert(ws[u].len() == dim && all_numbers(c, ws[u]));
            assert(c(ws[u][i]));
        }
        lemma_average_closed(ar, c, col);
    }
    assert forall|r: int| 0 <= r < dim implies b[r] == applied(ar, m, x)[r] by {
        assert(m[r].len() == m.len() && all_numbers(c, m[r]));
        lemma_span_averaged(ar, c, m[r], ws, dim, dim as int);
        let made = Seq::new(ws.len(), |u: int| span_sum(ar, m[r], ws[u], 0, dim as int));
        assert forall|u: int| 0 <= u < ws.len() implies made[u] == across_lists(sides, r)[u] by {
            assert(ws[u].len() == dim);
            assert(applied(ar, m, ws[u])[r] == made[u]);
        }
        assert(made =~= across_lists(sides, r));
    }
    assert(b =~= applied(ar, m, x));
    elimination_finds_the_solution(ar, c, m, b, x, w);
}

/// The matrix of block kriging is that of point kriging.
proof fn lemma_same_matrix<'a, const D: usize, F: Fn(Op, Double, Double) -> Double, G: Fn([Double; D]) -> Double>(
    s: &Setting<'a, D, G>,
    ar: Arithmetic<F>,
    c: Numbers,
    nb: Seq<usize>,
)
    requires
        computes_in(s, ar, c, nb),
        s.model.semivariance(no_separation(D as nat)) == num(0),
        s.config.method is Simple || s.config.method is Ordinary,
        !s.model.traits.has_power,
    ensures
        s.block_lhs(ar, nb) == s.lhs(ar, nb),
{
    let dim = nb.len() + s.terms();
    lemma_differences(ar, c, s.model.sill);
    assert forall|r: int| 0 <= r < dim implies s.block_lhs(ar, nb)[r] == s.lhs(ar, nb)[r] by {
        assert forall|k: int| 0 <= k < dim implies s.block_cell(ar, nb, r, k) == s.lhs_cell(
            ar,
            nb,
            r,
            k,
        ) by {}
        assert(s.block_lhs(ar, nb)[r] =~= s.lhs(ar, nb)[r]);
    }
    assert(s.block_lhs(ar, nb) =~= s.lhs(ar, nb));
}

/// The right-hand sides at the points of a block.
pub open spec fn sides_at<'a, const D: usize, F: Fn(Op, Double, Double) -> Double, G: Fn([Double; D]) -> Double>(
    s: &Setting<'a, D, G>,
    ar: Arithmetic<F>,
    nb: Seq<usize>,
    targets: Seq<[Double; D]>,
) -> Seq<Seq<Double>> {
    Seq::new(targets.len(), |u: int| s.rhs(ar, nb, targets[u]@, Seq::empty()))
}

/// The right-hand side of a block is the average of those of its points.
proof fn lemma_block_rhs<'a, const D: usize, F: Fn(Op, Double, Double) -> Double, G: Fn([Double; D]) -> Double>(
    s: &Setting<'a, D, G>,
    ar: Arithmetic<F>,
    c: Numbers,
    nb: Seq<usize>,
    center: [Double; D],
    offsets: Seq<[Double; D]>,
    targets: Seq<[Double; D]>,
)
    requires
        computes_in(s, ar, c, nb),
        counts(ar, c, offsets.len()),
        s.config.method is Simple || s.config.method is Ordinary,
        !s.model.traits.has_power,
        targets.len() == offsets.len(),
        forall|u: int, d: int|
            0 <= u < offsets.len() && 0 <= d < D ==> (#[trigger] targets[u]@[d]) == ar.plus(
                center@[d],
                offsets[u]@[d],
            ),
    ensures
        s.block_rhs(ar, nb, center@, offsets) == averaged(
            ar,
            sides_at(s, ar, nb, targets),
            nb.len() + s.terms(),
        ),
{
    let dim = nb.len() + s.terms();
    let sides = sides_at(s, ar, nb, targets);
    let b = s.block_rhs(ar, nb, center@, offsets);
    assert forall|r: int| 0 <= r < dim implies b[r] == averaged(ar, sides, dim)[r] by {
        let col = across_lists(sides, r);
        if r < nb.len() {
            let p = s.data.places()[nb[r] as int]@;
            let to = crate::kriging::to_block(ar, *s.model, p, center@, offsets);
            assert forall|u: int| 0 <= u < to.len() implies to[u] == col[u] by {
                assert(crate::kriging::block_gap(ar, p, center@, offsets[u]@) =~= ar.separation(
                    p,
                    targets[u]@,
                )) by {
                    assert forall|d: int| 0 <= d < D implies crate::kriging::block_gap(
                        ar,
                        p,
                        center@,
                        offsets[u]@,
                    )[d] == ar.separation(p, targets[u]@)[d] by {
                        assert(targets[u]@[d] == ar.plus(center@[d], offsets[u]@[d]));
                    }
                }
            }
            assert(to =~= col);
        } else {
            closed(ar, c, num(0), num(ONE));
            lemma_average_of_equals(ar, c, num(ONE), offsets.len());
            assert(col =~= Seq::new(offsets.len(), |u: int| num(ONE)));
        }
    }
    assert(b =~= averaged(ar, sides, dim));
}

/// The estimates of a block's points.
pub open spec fn values_of_estimates(es: Seq<KrigingEstimate>) -> Seq<Double> {
    Seq::new(es.len(), |u: int| es[u].value)
}

/// Block kriging averages point predictions: the estimate of a block is the mean of the
/// estimates at its discretization points, from the same conditioning points.
pub proof fn block_is_the_mean_of_its_points<'a, const D: usize, F: Fn(Op, Double, Double) -> Double, G: Fn([Double; D]) -> Double>(
    s: &Setting<'a, D, G>,
    ar: Arithmetic<F>,
    c: Numbers,
    nb: Seq<usize>,
    center: [Double; D],
    offsets: Seq<[Double; D]>,
    targets: Seq<[Double; D]>,
    es: Seq<KrigingEstimate>,
    e: KrigingEstimate,
)
    requires
        computes_in(s, ar, c, nb),
        counts(ar, c, offsets.len()),
        s.model.semivariance(no_separation(D as nat)) == num(0),
        s.config.method is Simple || s.config.method is Ordinary,
        !s.model.traits.has_power,
        targets.len() == offsets.len(),
        forall|u: int, d: int|
            0 <= u < offsets.len() && 0 <= d < D ==> (#[trigger] targets[u]@[d]) == ar.plus(
                center@[d],
                offsets[u]@[d],
            ),
        es.len() == offsets.len(),
        forall|u: int|
            0 <= u < offsets.len() ==> all_numbers(
                c,
                #[trigger] s.rhs(ar, nb, targets[u]@, Seq::empty()),
            ),
        forall|u: int|
            0 <= u < offsets.len() ==> s.kriged(
                ar,
                targets[u],
                Seq::empty(),
                nb,
                Ok(#[trigger] es[u]),
            ),
        s.block_kriged(ar, center, offsets, nb, Ok(e)),
    ensures
        e.value == ar.average_of(values_of_estimates(es)),
{
    let dim = nb.len() + s.terms();
    let n = nb.len() as int;
    let m = s.lhs(ar, nb);
    let b = s.block_rhs(ar, nb, center@, offsets);
    let sides = sides_at(s, ar, nb, targets);
    let count = offsets.len();
    lemma_same_matrix(s, ar, c, nb);
    lemma_block_rhs(s, ar, c, nb, center, offsets, targets);
    let w = choose|w: Seq<Double>| #[trigger]
        solution(ar, s.block_lhs(ar, nb), b, w) && e == s.weighted(
            ar,
            nb,
            w,
            b,
            Some(crate::kriging::within_block(ar, *s.model, offsets)),
        );
    let ws = Seq::new(
        count,
        |u: int|
            choose|w: Seq<Double>| #[trigger]
                solution(ar, m, sides[u], w) && es[u] == s.weighted(
                    ar,
                    nb,
                    w,
                    sides[u],
                    s.top(),
                ),
    );
    assert forall|u: int| 0 <= u < count implies (#[trigger] sides[u]).len() == dim && all_numbers(
        c,
        sides[u],
    ) && solution(ar, m, sides[u], ws[u]) && es[u] == s.weighted(
        ar,
        nb,
        ws[u],
        sides[u],
        s.top(),
    ) by {
        assert(s.kriged(ar, targets[u], Seq::empty(), nb, Ok(es[u])));
        assert(sides[u] == s.rhs(ar, nb, targets[u]@, Seq::empty()));
    }
    let x = averaged(ar, ws, dim);
    lemma_solution_averaged(ar, c, m, sides, ws, w);
    let start = match s.config.method {
        KrigingMethod::Simple { mean } => mean,
        _ => num(0),
    };
    let v = match s.config.method {
        KrigingMethod::Simple { mean } => s.centered_at(ar, nb, mean),
        _ => s.values_at(nb),
    };
    closed(ar, c, num(0), num(0));
    assert forall|i: int| 0 <= i < v.len() implies c(#[trigger] v[i]) by {
        assert(c(s.values_at(nb)[i]));
        closed(ar, c, s.values_at(nb)[i], start);
    }
    lemma_average_of_equals(ar, c, start, count);
    if n > 0 {
        lemma_dot_start(ar, c, x, v, n);
    } else {
        assert(s.kriged(ar, targets[0], Seq::empty(), nb, Ok(es[0])));
        assert(s.config.method is Simple);
    }
    assert(e.value == ar.dot_from(start, x, v, n));
    lemma_dot_is_span(ar, c, start, x, v, n);
    lemma_span_averaged(ar, c, v, ws, dim, n);
    let sums = Seq::new(ws.len(), |u: int| span_sum(ar, v, ws[u], 0, n));
    let starts = Seq::new(count, |u: int| start);
    let values = values_of_estimates(es);
    assert forall|u: int| 0 <= u < count implies #[trigger] values[u] == ar.plus(
        starts[u],
        sums[u],
    ) by {
        assert(sides[u].len() == dim);
        assert(ws[u].len() == dim);
        if n > 0 {
            lemma_dot_start(ar, c, ws[u], v, n);
        }
        assert(es[u].value == ar.dot_from(start, ws[u], v, n));
        lemma_dot_is_span(ar, c, start, ws[u], v, n);
    }
    lemma_average_added(ar, c, starts, sums, values);
}

} // verus!

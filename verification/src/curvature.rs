//! Matrices of a minimization over an arithmetic without rounding: what an update of the
//! inverse Hessian learns from a step and what it keeps, and what a log determinant sums.

use vstd::prelude::*;

use crate::algebra::{lemma_minus_undoes, lemma_rows_added};
use crate::arith::{num, Arithmetic, Op};
use crate::double::{Double, ONE};
use crate::exact::{
    all_numbers, closed, exact, lemma_span_closed, span_sum, start_law, times_associates, Numbers,
};
use crate::exact_collocated::lemma_span_scaled;
use crate::exact_kriging::lemma_dot_is_span;
use crate::linalg::log_diagonal;
use crate::optim::{column, deflated, matrix_product, unit_matrix, updated};

verus! {

/// A square matrix of numbers.
pub open spec fn matrix_of(c: Numbers, m: Seq<Seq<Double>>, n: nat) -> bool {
    &&& m.len() == n
    &&& forall|i: int| 0 <= i < n ==> (#[trigger] m[i]).len() == n && all_numbers(c, m[i])
}

/// What a matrix makes of a vector.
pub open spec fn mapped<F: Fn(Op, Double, Double) -> Double>(
    ar: Arithmetic<F>,
    m: Seq<Seq<Double>>,
    v: Seq<Double>,
) -> Seq<Double> {
    Seq::new(m.len(), |i: int| span_sum(ar, m[i], v, 0, v.len() as int))
}

/// The scalar product of two vectors.
pub open spec fn inner<F: Fn(Op, Double, Double) -> Double>(
    ar: Arithmetic<F>,
    a: Seq<Double>,
    b: Seq<Double>,
) -> Double {
    span_sum(ar, a, b, 0, b.len() as int)
}

proof fn lemma_mapped_closed<F: Fn(Op, Double, Double) -> Double>(
    ar: Arithmetic<F>,
    c: Numbers,
    m: Seq<Seq<Double>>,
    v: Seq<Double>,
)
    requires
        exact(ar, c),
        matrix_of(c, m, v.len()),
        all_numbers(c, v),
    ensures
        all_numbers(c, mapped(ar, m, v)),
        mapped(ar, m, v).len() == v.len(),
{
    let x = mapped(ar, m, v);
    assert forall|i: int| 0 <= i < x.len() implies c(#[trigger] x[i]) by {
        assert(m[i].len() == v.len() && all_numbers(c, m[i]));
        lemma_span_closed(ar, c, m[i], v, 0, v.len() as int);
    }
}

/// Entries of row `i` of a product, summed over the first `m` places.
spec fn partial_row<F: Fn(Op, Double, Double) -> Double>(
    ar: Arithmetic<F>,
    row: Seq<Double>,
    b: Seq<Seq<Double>>,
    m: int,
) -> Seq<Double> {
    Seq::new(row.len(), |j: int| span_sum(ar, column(b, j), row, 0, m))
}

proof fn lemma_partial<F: Fn(Op, Double, Double) -> Double>(
    ar: Arithmetic<F>,
    c: Numbers,
    row: Seq<Double>,
    b: Seq<Seq<Double>>,
    v: Seq<Double>,
    m: int,
)
    requires
        exact(ar, c),
        matrix_of(c, b, v.len()),
        all_numbers(c, row),
        all_numbers(c, v),
        row.len() == v.len(),
        0 <= m <= v.len(),
    ensures
        all_numbers(c, partial_row(ar, row, b, m)),
        span_sum(ar, partial_row(ar, row, b, m), v, 0, v.len() as int) == span_sum(
            ar,
            row,
            mapped(ar, b, v),
            0,
            m,
        ),
    decreases m,
{
    let n = v.len() as int;
    let now = partial_row(ar, row, b, m);
    closed(ar, c, num(0), num(0));
    assert forall|j: int| 0 <= j < n implies c(#[trigger] now[j]) by {
        let col = column(b, j);
        assert forall|k: int| 0 <= k < col.len() implies c(#[trigger] col[k]) by {
            assert(b[k].len() == n && all_numbers(c, b[k]));
        }
        lemma_span_closed(ar, c, col, row, 0, m);
    }
    if m == 0 {
        crate::sills::lemma_zeros(ar, c, now, v, n);
    } else {
        lemma_partial(ar, c, row, b, v, m - 1);
        let before = partial_row(ar, row, b, m - 1);
        let k = m - 1;
        assert(b[k].len() == n && all_numbers(c, b[k]));
        assert(c(row[k]));
        let scaled = Seq::new(n as nat, |j: int| ar.times(row[k], b[k][j]));
        assert forall|j: int| 0 <= j < n implies c(#[trigger] scaled[j]) && now[j] == ar.plus(
            before[j],
            scaled[j],
        ) by {
            assert(c(b[k][j]));
            closed(ar, c, row[k], b[k][j]);
        }
        assert forall|j: int| 0 <= j < n implies #[trigger] now[j] == ar.plus(
            before[j],
            scaled[j],
        ) by {
            assert(c(scaled[j]));
        }
        lemma_rows_added(ar, c, before, scaled, now, v, n);
        lemma_span_scaled(ar, c, row[k], b[k], scaled, v, n);
    }
}

/// A product of matrices maps a vector as one does what the other gives.
proof fn lemma_product<F: Fn(Op, Double, Double) -> Double>(
    ar: Arithmetic<F>,
    c: Numbers,
    a: Seq<Seq<Double>>,
    b: Seq<Seq<Double>>,
    v: Seq<Double>,
)
    requires
        exact(ar, c),
        matrix_of(c, a, v.len()),
        matrix_of(c, b, v.len()),
        all_numbers(c, v),
    ensures
        matrix_of(c, matrix_product(ar, a, b), v.len()),
        mapped(ar, matrix_product(ar, a, b), v) == mapped(ar, a, mapped(ar, b, v)),
{
    let n = v.len() as int;
    let p = matrix_product(ar, a, b);
    let bv = mapped(ar, b, v);
    lemma_mapped_closed(ar, c, b, v);
    closed(ar, c, num(0), num(0));
    assert forall|i: int| 0 <= i < n implies (#[trigger] p[i]).len() == n && all_numbers(c, p[i])
        && span_sum(ar, p[i], v, 0, n) == span_sum(ar, a[i], bv, 0, n) by {
        assert(a[i].len() == n && all_numbers(c, a[i]));
        let row = partial_row(ar, a[i], b, n);
        lemma_partial(ar, c, a[i], b, v, n);
        assert forall|j: int| 0 <= j < n implies p[i][j] == row[j] by {
            let col = column(b, j);
            assert forall|k: int| 0 <= k < col.len() implies c(#[trigger] col[k]) by {
                assert(b[k].len() == n && all_numbers(c, b[k]));
            }
            lemma_dot_is_span(ar, c, num(0), a[i], col, n);
            lemma_span_closed(ar, c, col, a[i], 0, n);
            closed(ar, c, span_sum(ar, col, a[i], 0, n), num(0));
        }
        assert(p[i] =~= row);
    }
    assert(mapped(ar, p, v) =~= mapped(ar, a, bv)) by {
        assert forall|i: int| 0 <= i < n implies mapped(ar, p, v)[i] == mapped(ar, a, bv)[i] by {
            assert(p[i].len() == n);
        }
    }
}

/// `I - rho u w'` takes from a vector the multiple of `u` by which it goes along `w`.
proof fn lemma_deflated<F: Fn(Op, Double, Double) -> Double>(
    ar: Arithmetic<F>,
    c: Numbers,
    rho: Double,
    u: Seq<Double>,
    w: Seq<Double>,
    v: Seq<Double>,
)
    requires
        exact(ar, c),
        c(rho),
        all_numbers(c, u),
        all_numbers(c, w),
        all_numbers(c, v),
        u.len() == v.len(),
        w.len() == v.len(),
    ensures
        matrix_of(c, deflated(ar, rho, u, w), v.len()),
        c(inner(ar, w, v)),
        forall|i: int|
            0 <= i < v.len() ==> ar.plus(
                #[trigger] mapped(ar, deflated(ar, rho, u, w), v)[i],
                ar.times(ar.times(rho, u[i]), inner(ar, w, v)),
            ) == v[i],
{
    let n = v.len() as int;
    let d = deflated(ar, rho, u, w);
    closed(ar, c, num(0), num(ONE));
    lemma_span_closed(ar, c, w, v, 0, n);
    assert forall|i: int| 0 <= i < n implies (#[trigger] d[i]).len() == n && all_numbers(c, d[i])
        && ar.plus(
        span_sum(ar, d[i], v, 0, n),
        ar.times(ar.times(rho, u[i]), inner(ar, w, v)),
    ) == v[i] by {
        assert(c(u[i]) && c(v[i]));
        let k = ar.times(rho, u[i]);
        closed(ar, c, rho, u[i]);
        let unit = unit_matrix(u.len())[i];
        let kw = Seq::new(n as nat, |j: int| ar.times(k, w[j]));
        assert forall|j: int| 0 <= j < n implies c(#[trigger] d[i][j]) && c(kw[j]) && unit[j]
            == ar.plus(d[i][j], kw[j]) by {
            assert(c(w[j]));
            closed(ar, c, u[i], w[j]);
            times_associates(ar, c, rho, u[i], w[j]);
            closed(ar, c, k, w[j]);
            closed(ar, c, unit[j], kw[j]);
        }
        assert forall|j: int| 0 <= j < n implies c(#[trigger] kw[j]) by {
            assert(c(d[i][j]));
        }
        assert forall|j: int| 0 <= j < n implies #[trigger] unit[j] == ar.plus(d[i][j], kw[j]) by {
            assert(c(d[i][j]));
        }
        assert(all_numbers(c, d[i]));
        lemma_rows_added(ar, c, d[i], kw, unit, v, n);
        lemma_span_scaled(ar, c, k, w, kw, v, n);
        crate::sills::lemma_single(ar, c, unit, v, i, n);
        closed(ar, c, v[i], num(ONE));
    }
    assert forall|i: int| 0 <= i < n implies ar.plus(
        #[trigger] mapped(ar, d, v)[i],
        ar.times(ar.times(rho, u[i]), inner(ar, w, v)),
    ) == v[i] by {
        assert(d[i].len() == n);
    }
}

/// An update of the inverse Hessian learns the curvature along a step: it maps the change
/// of the gradient to the step. Of what it knew it keeps what has nothing to do with the
/// step: a change that does not go along the step is mapped as before, up to a multiple of
/// the step.
pub proof fn updates_learn_the_step<F: Fn(Op, Double, Double) -> Double>(
    ar: Arithmetic<F>,
    c: Numbers,
    h: Seq<Seq<Double>>,
    s: Seq<Double>,
    y: Seq<Double>,
    v: Seq<Double>,
)
    requires
        exact(ar, c),
        s.len() > 0,
        y.len() == s.len(),
        v.len() == s.len(),
        matrix_of(c, h, s.len()),
        all_numbers(c, s),
        all_numbers(c, y),
        all_numbers(c, v),
        inner(ar, s, y) != num(0),
        inner(ar, s, v) == num(0),
    ensures
        mapped(ar, updated(ar, h, s, y, inner(ar, s, y)), y) == s,
        exists|k: Double| #[trigger] c(k) && forall|i: int|
            0 <= i < s.len() ==> ar.plus(
                #[trigger] mapped(ar, updated(ar, h, s, y, inner(ar, s, y)), v)[i],
                ar.times(s[i], k),
            ) == mapped(ar, h, v)[i],
{
    let n = s.len() as int;
    let sy = inner(ar, s, y);
    closed(ar, c, num(0), num(ONE));
    lemma_span_closed(ar, c, s, y, 0, n);
    let rho = ar.over(num(ONE), sy);
    closed(ar, c, num(ONE), sy);
    let d1 = deflated(ar, rho, s, y);
    let d2 = deflated(ar, rho, y, s);
    let m = matrix_product(ar, matrix_product(ar, d1, h), d2);
    let next = updated(ar, h, s, y, sy);
    // Along the change of the gradient.
    lemma_updated(ar, c, h, s, y, y);
    lemma_deflated(ar, c, rho, y, s, y);
    let left = mapped(ar, d2, y);
    assert forall|i: int| 0 <= i < n implies #[trigger] left[i] == num(0) by {
        assert(c(y[i]));
        // rho y_i s'y == y_i
        closed(ar, c, rho, y[i]);
        closed(ar, c, y[i], rho);
        times_associates(ar, c, y[i], rho, sy);
        closed(ar, c, y[i], num(ONE));
        lemma_mapped_closed(ar, c, d2, y);
        assert(c(left[i]));
        lemma_minus_undoes(ar, c, left[i], y[i]);
        closed(ar, c, y[i], num(0));
        lemma_minus_undoes(ar, c, num(0), y[i]);
    }
    lemma_mapped_closed(ar, c, d2, y);
    let hl = mapped(ar, h, left);
    lemma_mapped_closed(ar, c, h, left);
    assert forall|i: int| 0 <= i < n implies #[trigger] hl[i] == num(0) by {
        assert(h[i].len() == n && all_numbers(c, h[i]));
        crate::sills::lemma_no_weight(ar, c, h[i], left, n);
    }
    let dl = mapped(ar, d1, hl);
    lemma_deflated(ar, c, rho, s, y, hl);
    assert forall|i: int| 0 <= i < n implies #[trigger] dl[i] == num(0) by {
        assert(d1[i].len() == n && all_numbers(c, d1[i]));
        crate::sills::lemma_no_weight(ar, c, d1[i], hl, n);
    }
    assert(mapped(ar, next, y) =~= s) by {
        assert forall|i: int| 0 <= i < n implies mapped(ar, next, y)[i] == s[i] by {
            assert(c(s[i]));
            assert(dl[i] == num(0));
            closed(ar, c, rho, s[i]);
            closed(ar, c, s[i], rho);
            times_associates(ar, c, s[i], rho, sy);
            closed(ar, c, s[i], num(ONE));
            closed(ar, c, s[i], num(0));
        }
    }
    // Across the step.
    lemma_updated(ar, c, h, s, y, v);
    lemma_deflated(ar, c, rho, y, s, v);
    let kept = mapped(ar, d2, v);
    lemma_mapped_closed(ar, c, d2, v);
    assert(kept =~= v) by {
        assert forall|i: int| 0 <= i < n implies kept[i] == v[i] by {
            assert(c(y[i]) && c(kept[i]));
            closed(ar, c, rho, y[i]);
            closed(ar, c, ar.times(rho, y[i]), num(0));
            closed(ar, c, kept[i], num(0));
        }
    }
    let hv = mapped(ar, h, v);
    lemma_mapped_closed(ar, c, h, v);
    lemma_deflated(ar, c, rho, s, y, hv);
    let t = inner(ar, y, hv);
    closed(ar, c, rho, t);
    let k = ar.times(rho, t);
    assert(c(k));
    let dv = mapped(ar, d1, hv);
    assert forall|i: int| 0 <= i < n implies ar.plus(
        #[trigger] mapped(ar, next, v)[i],
        ar.times(s[i], k),
    ) == hv[i] by {
        assert(c(s[i]));
        closed(ar, c, rho, s[i]);
        closed(ar, c, ar.times(rho, s[i]), num(0));
        lemma_mapped_closed(ar, c, d1, hv);
        assert(c(dv[i]));
        closed(ar, c, dv[i], num(0));
        assert(mapped(ar, next, v)[i] == dv[i]);
        times_associates(ar, c, s[i], rho, t);
        assert(ar.plus(dv[i], ar.times(ar.times(rho, s[i]), t)) == hv[i]);
    }
}

/// What the updated matrix makes of a vector.
proof fn lemma_updated<F: Fn(Op, Double, Double) -> Double>(
    ar: Arithmetic<F>,
    c: Numbers,
    h: Seq<Seq<Double>>,
    s: Seq<Double>,
    y: Seq<Double>,
    v: Seq<Double>,
)
    requires
        exact(ar, c),
        y.len() == s.len(),
        v.len() == s.len(),
        matrix_of(c, h, s.len()),
        all_numbers(c, s),
        all_numbers(c, y),
        all_numbers(c, v),
        inner(ar, s, y) != num(0),
    ensures
        ({
            let rho = ar.over(num(ONE), inner(ar, s, y));
            let rest = mapped(
                ar,
                deflated(ar, rho, s, y),
                mapped(ar, h, mapped(ar, deflated(ar, rho, y, s), v)),
            );
            &&& rest.len() == s.len()
            &&& forall|i: int|
                0 <= i < s.len() ==> #[trigger] mapped(
                    ar,
                    updated(ar, h, s, y, inner(ar, s, y)),
                    v,
                )[i] == ar.plus(rest[i], ar.times(ar.times(rho, s[i]), inner(ar, s, v)))
        }),
{
    let n = s.len() as int;
    let sy = inner(ar, s, y);
    closed(ar, c, num(0), num(ONE));
    lemma_span_closed(ar, c, s, y, 0, n);
    let rho = ar.over(num(ONE), sy);
    closed(ar, c, num(ONE), sy);
    let d1 = deflated(ar, rho, s, y);
    let d2 = deflated(ar, rho, y, s);
    lemma_deflated(ar, c, rho, s, y, v);
    lemma_deflated(ar, c, rho, y, s, v);
    lemma_mapped_closed(ar, c, d2, v);
    let dv = mapped(ar, d2, v);
    let a = matrix_product(ar, d1, h);
    lemma_product(ar, c, d1, h, dv);
    lemma_product(ar, c, a, d2, v);
    let m = matrix_product(ar, a, d2);
    let rest = mapped(ar, m, v);
    let next = updated(ar, h, s, y, sy);
    assert forall|i: int| 0 <= i < n implies #[trigger] mapped(ar, next, v)[i] == ar.plus(
        rest[i],
        ar.times(ar.times(rho, s[i]), inner(ar, s, v)),
    ) by {
        assert(m[i].len() == n && all_numbers(c, m[i]));
        assert(c(s[i]));
        let k = ar.times(rho, s[i]);
        closed(ar, c, rho, s[i]);
        let ks = Seq::new(n as nat, |j: int| ar.times(k, s[j]));
        assert forall|j: int| 0 <= j < n implies c(#[trigger] ks[j]) && next[i][j] == ar.plus(
            m[i][j],
            ks[j],
        ) by {
            assert(c(s[j]));
            closed(ar, c, k, s[j]);
            times_associates(ar, c, rho, s[i], s[j]);
        }
        assert forall|j: int| 0 <= j < n implies #[trigger] next[i][j] == ar.plus(m[i][j], ks[j]) by {
            assert(c(ks[j]));
        }
        lemma_rows_added(ar, c, m[i], ks, next[i], v, n);
        lemma_span_scaled(ar, c, k, s, ks, v, n);
    }
}

/// Product of the absolute diagonal of the first `n` rows.
pub open spec fn diagonal_product<F: Fn(Op, Double, Double) -> Double>(
    ar: Arithmetic<F>,
    lu: Seq<Seq<Double>>,
    n: int,
) -> Double
    decreases n,
{
    if n <= 0 {
        num(ONE)
    } else {
        ar.times(diagonal_product(ar, lu, n - 1), lu[n - 1][n - 1].abs())
    }
}

/// The exponential of a log determinant is the product of the absolute pivots.
pub proof fn log_determinant_is_that_of_the_pivots<F: Fn(Op, Double, Double) -> Double>(
    ar: Arithmetic<F>,
    c: Numbers,
    lu: Seq<Seq<Double>>,
    n: int,
)
    requires
        exact(ar, c),
        0 < n <= lu.len(),
        forall|i: int|
            0 <= i < n ==> {
                let p = (#[trigger] lu[i])[i].abs();
                c(p) && c(ar.ln(p)) && ar.exp(ar.ln(p)) == p
            },
        forall|x: Double, y: Double|
            c(x) && c(y) ==> ar.exp(#[trigger] ar.plus(x, y)) == ar.times(ar.exp(x), ar.exp(y)),
    ensures
        ar.exp(log_diagonal(ar, lu, n)) == diagonal_product(ar, lu, n),
        c(log_diagonal(ar, lu, n)),
        c(diagonal_product(ar, lu, n)),
    decreases n,
{
    reveal_with_fuel(log_diagonal, 2);
    reveal_with_fuel(diagonal_product, 2);
    let p = lu[n - 1][n - 1].abs();
    closed(ar, c, num(0), num(ONE));
    assert(c(p) && c(ar.ln(p)) && ar.exp(ar.ln(p)) == p) by {
        assert(lu[n - 1] == lu[n - 1]);
    }
    if n > 1 {
        log_determinant_is_that_of_the_pivots(ar, c, lu, n - 1);
        closed(ar, c, log_diagonal(ar, lu, n - 1), ar.ln(p));
        closed(ar, c, diagonal_product(ar, lu, n - 1), p);
    } else {
        assert(start_law(ar, c, ar.ln(p)));
        closed(ar, c, p, num(ONE));
    }
}

} // verus!

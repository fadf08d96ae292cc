//! Minimal dense linear algebra: LU solve with partial pivoting, and Cholesky.
//!
//! Kriging systems with Lagrange multipliers are symmetric but indefinite, so
//! Cholesky is not applicable to them; LU with partial pivoting is robust.

use vstd::prelude::*;

use crate::arith::{num, Arithmetic, LEAST, MINUS_ZERO, Op};
use crate::double::Double;
use crate::error::{mismatch, mismatched, singular, unsolvable, GeostatError};
use crate::matrix::{width_of, Matrix};
use crate::text::{concat2, concat3, concat4, concat5, decimal, digits};

verus! {

/// Bit pattern of the smallest pivot, relative to the matrix's scale.
pub const TINY_PIVOT: u64 = 0x3D71_9799_812D_EA11;

// ---------------------------------------------------------------------------
// LU with partial pivoting
// ---------------------------------------------------------------------------

/// Greatest of `start` and the magnitudes in a row.
pub open spec fn row_peak(row: Seq<Double>, start: Double) -> Double
    decreases row.len(),
{
    if row.len() == 0 {
        start
    } else {
        row_peak(row.drop_last(), start).greater(row.last().unsigned())
    }
}

/// Greatest of `start` and the magnitudes in a matrix.
pub open spec fn peak(m: Seq<Seq<Double>>, start: Double) -> Double
    decreases m.len(),
{
    if m.len() == 0 {
        start
    } else {
        row_peak(m.last(), peak(m.drop_last(), start))
    }
}

/// Scale of a matrix: its greatest magnitude, and not zero.
pub open spec fn scale_of(m: Seq<Seq<Double>>) -> Double {
    peak(m, num(0)).greater(num(LEAST))
}

/// Row with the greatest magnitude in column `k` among rows `k` to `hi - 1`,
/// the first of several.
pub open spec fn pivot_among(m: Seq<Seq<Double>>, k: int, hi: int) -> int
    decreases hi - k,
{
    if hi <= k + 1 {
        k
    } else {
        let p = pivot_among(m, k, hi - 1);
        if m[p][k].unsigned().below(m[hi - 1][k].unsigned()) {
            hi - 1
        } else {
            p
        }
    }
}

/// Row to pivot on in column `k`.
pub open spec fn pivot_of(m: Seq<Seq<Double>>, k: int) -> int {
    pivot_among(m, k, m.len() as int)
}

/// Rows `p` and `k` exchanged.
pub open spec fn rows_swapped<T>(m: Seq<T>, k: int, p: int) -> Seq<T> {
    m.update(k, m[p]).update(p, m[k])
}

/// A row after elimination of column `k` by the pivot row: the multiplier
/// stands in column `k`, and columns after it are reduced.
pub open spec fn reduced<F: Fn(Op, Double, Double) -> Double>(
    ar: Arithmetic<F>,
    row: Seq<Double>,
    pivot_row: Seq<Double>,
    k: int,
) -> Seq<Double> {
    let f = ar.over(row[k], pivot_row[k]);
    Seq::new(
        row.len(),
        |j: int|
            if j < k {
                row[j]
            } else if j == k {
                f
            } else if f.equals(num(0)) {
                row[j]
            } else {
                ar.minus(row[j], ar.times(f, pivot_row[j]))
            },
    )
}

/// Elimination of column `k`: pivoting, then reduction of the rows below.
pub open spec fn eliminate<F: Fn(Op, Double, Double) -> Double>(
    ar: Arithmetic<F>,
    m: Seq<Seq<Double>>,
    k: int,
) -> Seq<Seq<Double>> {
    let s = rows_swapped(m, k, pivot_of(m, k));
    Seq::new(
        m.len(),
        |i: int|
            if i <= k {
                s[i]
            } else {
                reduced(ar, s[i], s[k], k)
            },
    )
}

/// The matrix after elimination of its first `k` columns.
pub open spec fn eliminated<F: Fn(Op, Double, Double) -> Double>(
    ar: Arithmetic<F>,
    m: Seq<Seq<Double>>,
    k: int,
) -> Seq<Seq<Double>>
    decreases k,
{
    if k <= 0 {
        m
    } else {
        eliminate(ar, eliminated(ar, m, k - 1), k - 1)
    }
}

/// Magnitude of the pivot in column `k`.
pub open spec fn pivot_size<F: Fn(Op, Double, Double) -> Double>(
    ar: Arithmetic<F>,
    m: Seq<Seq<Double>>,
    k: int,
) -> Double {
    let e = eliminated(ar, m, k);
    e[pivot_of(e, k)][k].unsigned()
}

/// The pivot in column `k` is large enough.
pub open spec fn pivots<F: Fn(Op, Double, Double) -> Double>(
    ar: Arithmetic<F>,
    m: Seq<Seq<Double>>,
    k: int,
) -> bool {
    !pivot_size(ar, m, k).below(ar.times(num(TINY_PIVOT), scale_of(m)))
}

/// All pivots before column `k` are large enough.
pub open spec fn pivots_before<F: Fn(Op, Double, Double) -> Double>(
    ar: Arithmetic<F>,
    m: Seq<Seq<Double>>,
    k: int,
) -> bool {
    forall|c: int| 0 <= c < k ==> #[trigger] pivots(ar, m, c)
}

/// The matrix can be factorized.
pub open spec fn regular<F: Fn(Op, Double, Double) -> Double>(
    ar: Arithmetic<F>,
    m: Seq<Seq<Double>>,
) -> bool {
    pivots_before(ar, m, m.len() as int)
}

/// The error reports the first pivot that is too small.
pub open spec fn reports_pivot<F: Fn(Op, Double, Double) -> Double>(
    ar: Arithmetic<F>,
    m: Seq<Seq<Double>>,
    e: GeostatError,
) -> bool {
    exists|k: int| #[trigger] stops_at(ar, m, k) && singular(
        e,
        "pivot {:.3e} at column "@ + digits(k as nat) + " (matrix scale {:.3e})"@,
        seq![pivot_size(ar, m, k), scale_of(m)],
    )
}

/// Column `k` is the first whose pivot is too small.
pub open spec fn stops_at<F: Fn(Op, Double, Double) -> Double>(
    ar: Arithmetic<F>,
    m: Seq<Seq<Double>>,
    k: int,
) -> bool {
    0 <= k < m.len() && pivots_before(ar, m, k) && !pivots(ar, m, k)
}

/// An LU factorization with partial pivoting, reusable across many right-hand
/// sides.
#[derive(Debug)]
pub struct Lu {
    /// Combined factors: the strict lower triangle holds the multipliers, the
    /// upper triangle with the diagonal holds U.
    lu: Matrix,
    /// Row exchanged with row `k` at elimination step `k`.
    piv: Vec<usize>,
    n: usize,
}

impl Lu {
    /// The combined factors.
    pub closed spec fn factors(&self) -> Seq<Seq<Double>> {
        self.lu.rows()
    }

    /// The row exchanges.
    pub closed spec fn exchanges(&self) -> Seq<usize> {
        self.piv@
    }

    /// The order of the matrix.
    pub closed spec fn order(&self) -> nat {
        self.n as nat
    }

    /// The parts fit together.
    pub closed spec fn well_formed(&self) -> bool {
        &&& self.lu.square(self.n as nat)
        &&& self.piv@.len() == self.n
        &&& forall|k: int| 0 <= k < self.n ==> k <= #[trigger] self.piv@[k] < self.n
    }

    /// The factorization is that of this matrix.
    pub open spec fn factors_of<F: Fn(Op, Double, Double) -> Double>(
        &self,
        ar: Arithmetic<F>,
        m: Seq<Seq<Double>>,
    ) -> bool {
        &&& self.well_formed()
        &&& self.order() == m.len()
        &&& self.factors() == eliminated(ar, m, m.len() as int)
        &&& self.exchanges().len() == m.len()
        &&& forall|k: int|
            0 <= k < m.len() ==> #[trigger] self.exchanges()[k] == pivot_of(
                eliminated(ar, m, k),
                k,
            )
    }
}

/// The pivot row is one of the rows looked at.
pub proof fn lemma_pivot_range(m: Seq<Seq<Double>>, k: int, hi: int)
    requires
        0 <= k < hi,
    ensures
        k <= pivot_among(m, k, hi) < hi,
    decreases hi - k,
{
    if hi > k + 1 {
        lemma_pivot_range(m, k, hi - 1);
    }
}

/// Greatest magnitude in a matrix, and not zero.
fn scale(a: &Matrix, n: usize) -> (s: Double)
    requires
        a.square(n as nat),
    ensures
        s == scale_of(a.rows()),
{
    let mut s: Double = Double::zero();
    for i in 0..n
        invariant
            a.square(n as nat),
            s == peak(a.rows().take(i as int), num(0)),
    {
        let ghost before = s;
        for j in 0..n
            invariant
                i < n,
                a.square(n as nat),
                s == row_peak(a.rows()[i as int].take(j as int), before),
        {
            let ghost row = a.rows()[i as int];
            assert(row.take(j + 1).drop_last() =~= row.take(j as int));
            s = s.max(a.at(i, j).abs());
        }
        assert(a.rows()[i as int].take(n as int) =~= a.rows()[i as int]);
        assert(a.rows().take(i + 1).drop_last() =~= a.rows().take(i as int));
    }
    assert(a.rows().take(n as int) =~= a.rows());
    s.max(num(LEAST))
}

/// Row to pivot on in column `k`.
fn find_pivot(a: &Matrix, n: usize, k: usize) -> (p: usize)
    requires
        a.square(n as nat),
        k < n,
    ensures
        p == pivot_of(a.rows(), k as int),
        k <= p < n,
{
    let mut p: usize = k;
    let mut max: Double = a.at(k, k).abs();
    for i in k + 1..n
        invariant
            a.square(n as nat),
            k < i,
            k <= p < i,
            i <= n,
            p == pivot_among(a.rows(), k as int, i as int),
            max == a.entry(p as int, k as int).unsigned(),
    {
        let v: Double = a.at(i, k).abs();
        if max.lt(v) {
            max = v;
            p = i;
        }
    }
    p
}

/// Exchanges rows `k` and `p`.
fn exchange_rows(a: &mut Matrix, n: usize, k: usize, p: usize)
    requires
        old(a).square(n as nat),
        k < n,
        p < n,
    ensures
        final(a).square(n as nat),
        final(a).rows() == rows_swapped(old(a).rows(), k as int, p as int),
{
    let ghost m = a.rows();
    if p != k {
        for j in 0..n
            invariant
                k < n,
                p < n,
                p != k,
                m.len() == n,
                forall|i: int| 0 <= i < n ==> (#[trigger] m[i]).len() == n,
                a.square(n as nat),
                forall|i: int| 0 <= i < n && i != k && i != p ==> #[trigger] a.rows()[i] == m[i],
                forall|c: int|
                    0 <= c < n ==> #[trigger] a.rows()[k as int][c] == (if c < j {
                        m[p as int][c]
                    } else {
                        m[k as int][c]
                    }),
                forall|c: int|
                    0 <= c < n ==> #[trigger] a.rows()[p as int][c] == (if c < j {
                        m[k as int][c]
                    } else {
                        m[p as int][c]
                    }),
        {
            let ghost before = a.rows();
            a.exchange(k, p, j);
            assert forall|i: int| 0 <= i < n && i != k && i != p implies #[trigger] a.rows()[i] == m[i] by {
                assert(a.rows()[i] == before[i]);
            }
            assert(a.rows()[k as int] == before[k as int].update(j as int, before[p as int][j as int]));
            assert(a.rows()[p as int] == before[p as int].update(j as int, before[k as int][j as int]));
        }
        assert(a.rows()[k as int] =~= m[p as int]);
        assert(a.rows()[p as int] =~= m[k as int]);
    }
    assert(a.rows() =~= rows_swapped(m, k as int, p as int));
}

/// Reduces row `i` by the pivot row `k`.
fn reduce_row<F: Fn(Op, Double, Double) -> Double>(
    a: &mut Matrix,
    n: usize,
    k: usize,
    i: usize,
    ar: &Arithmetic<F>,
)
    requires
        ar.total(),
        old(a).square(n as nat),
        k < i < n,
    ensures
        final(a).square(n as nat),
        final(a).rows() == old(a).rows().update(
            i as int,
            reduced(*ar, old(a).rows()[i as int], old(a).rows()[k as int], k as int),
        ),
{
    let ghost m = a.rows();
    let ghost want = reduced(*ar, m[i as int], m[k as int], k as int);
    let f: Double = ar.over(a.at(i, k), a.at(k, k));
    a.put(i, k, f);
    if !f.eq_value(Double::zero()) {
        for j in k + 1..n
            invariant
                ar.total(),
                k < i < n,
                k < j,
                m.len() == n,
                forall|r: int| 0 <= r < n ==> (#[trigger] m[r]).len() == n,
                a.square(n as nat),
                want == reduced(*ar, m[i as int], m[k as int], k as int),
                f == ar.over(m[i as int][k as int], m[k as int][k as int]),
                !f.equals(num(0)),
                forall|r: int| 0 <= r < n && r != i ==> #[trigger] a.rows()[r] == m[r],
                forall|c: int|
                    0 <= c < n ==> #[trigger] a.rows()[i as int][c] == (if c < j {
                        want[c]
                    } else {
                        m[i as int][c]
                    }),
        {
            let x: Double = ar.minus(a.at(i, j), ar.times(f, a.at(k, j)));
            let ghost before = a.rows();
            a.put(i, j, x);
            assert(a.rows()[i as int] == before[i as int].update(j as int, x));
            assert forall|r: int| 0 <= r < n && r != i implies #[trigger] a.rows()[r] == m[r] by {
                assert(a.rows()[r] == before[r]);
            }
        }
    }
    assert(a.rows()[i as int] =~= want);
    assert(a.rows() =~= m.update(i as int, want));
}

/// Factorizes a square matrix in place via LU with partial pivoting.
pub fn lu_factor<F: Fn(Op, Double, Double) -> Double>(
    a: Matrix,
    ar: &Arithmetic<F>,
) -> (r: Result<Lu, GeostatError>)
    requires
        a.well_formed(),
        ar.total(),
    ensures
        match r {
            Ok(lu) => a.square(a.rows().len()) && regular(*ar, a.rows()) && lu.factors_of(
                *ar,
                a.rows(),
            ),
            Err(e) => if width_of(a) != a.rows().len() {
                mismatch(
                    e,
                    "A is "@ + digits(a.rows().len()) + "x"@ + digits(width_of(a))
                        + ", must be square"@,
                )
            } else {
                reports_pivot(*ar, a.rows(), e)
            },
        },
{
    let ghost m = a.rows();
    let n: usize = a.height();
    let cols: usize = a.width();
    if cols != n {
        return Err(
            mismatched(
                concat5(
                    "A is ",
                    decimal(n).as_str(),
                    "x",
                    decimal(cols).as_str(),
                    ", must be square",
                ),
            ),
        );
    }
    let mut w: Matrix = a;
    let scale: Double = scale(&w, n);
    let least: Double = ar.times(num(TINY_PIVOT), scale);
    let mut piv: Vec<usize> = Vec::new();
    for k in 0..n
        invariant
            ar.total(),
            w.square(n as nat),
            m == a.rows(),
            width_of(a) == n,
            m.len() == n,
            scale == scale_of(m),
            least == ar.times(num(TINY_PIVOT), scale_of(m)),
            w.rows() == eliminated(*ar, m, k as int),
            pivots_before(*ar, m, k as int),
            piv.len() == k,
            forall|c: int|
                0 <= c < k ==> c <= #[trigger] piv@[c] < n && piv@[c] == pivot_of(
                    eliminated(*ar, m, c),
                    c,
                ),
    {
        let ghost e = w.rows();
        let p: usize = find_pivot(&w, n, k);
        let max: Double = w.at(p, k).abs();
        if max.lt(least) {
            assert(stops_at(*ar, m, k as int));
            return Err(
                unsolvable(
                    concat3(
                        "pivot {:.3e} at column ",
                        decimal(k).as_str(),
                        " (matrix scale {:.3e})",
                    ),
                    max,
                    scale,
                ),
            );
        }
        assert(pivots(*ar, m, k as int));
        piv.push(p);
        exchange_rows(&mut w, n, k, p);
        let ghost s = w.rows();
        for i in k + 1..n
            invariant
                ar.total(),
                k < n,
                k < i,
                s.len() == n,
                forall|r: int| 0 <= r < n ==> (#[trigger] s[r]).len() == n,
                w.square(n as nat),
                forall|r: int|
                    0 <= r < n ==> #[trigger] w.rows()[r] == (if k < r < i {
                        reduced(*ar, s[r], s[k as int], k as int)
                    } else {
                        s[r]
                    }),
        {
            reduce_row(&mut w, n, k, i, ar);
        }
        assert(w.rows() =~= eliminate(*ar, e, k as int));
    }
    Ok(Lu { lu: w, piv, n })
}

/// `s` less the products of `row` and `x` at positions `lo` to `hi - 1`, from
/// the left.
pub open spec fn less_products<F: Fn(Op, Double, Double) -> Double>(
    ar: Arithmetic<F>,
    s: Double,
    row: Seq<Double>,
    x: Seq<Double>,
    lo: int,
    hi: int,
) -> Double
    decreases hi - lo,
{
    if hi <= lo {
        s
    } else {
        ar.minus(
            less_products(ar, s, row, x, lo, hi - 1),
            ar.times(row[hi - 1], x[hi - 1]),
        )
    }
}

/// Only the positions of the products matter.
proof fn lemma_products_agree<F: Fn(Op, Double, Double) -> Double>(
    ar: Arithmetic<F>,
    s: Double,
    row: Seq<Double>,
    x: Seq<Double>,
    y: Seq<Double>,
    lo: int,
    hi: int,
)
    requires
        forall|j: int| lo <= j < hi ==> #[trigger] x[j] == y[j],
    ensures
        less_products(ar, s, row, x, lo, hi) == less_products(ar, s, row, y, lo, hi),
    decreases hi - lo,
{
    if hi > lo {
        lemma_products_agree(ar, s, row, x, y, lo, hi - 1);
        assert(x[hi - 1] == y[hi - 1]);
    }
}

/// The list after the first `k` row exchanges.
pub open spec fn exchanged(b: Seq<Double>, piv: Seq<usize>, k: int) -> Seq<Double>
    decreases k,
{
    if k <= 0 {
        b
    } else {
        rows_swapped(exchanged(b, piv, k - 1), k - 1, piv[k - 1] as int)
    }
}

/// `y` solves `L y = b` by forward substitution; L has a unit diagonal.
pub open spec fn forward_unit<F: Fn(Op, Double, Double) -> Double>(
    ar: Arithmetic<F>,
    lu: Seq<Seq<Double>>,
    b: Seq<Double>,
    y: Seq<Double>,
) -> bool {
    &&& y.len() == b.len()
    &&& forall|i: int|
        0 <= i < y.len() ==> #[trigger] y[i] == less_products(ar, b[i], lu[i], y, 0, i)
}

/// `x` solves `U x = y` by back substitution.
pub open spec fn backward<F: Fn(Op, Double, Double) -> Double>(
    ar: Arithmetic<F>,
    lu: Seq<Seq<Double>>,
    y: Seq<Double>,
    x: Seq<Double>,
) -> bool {
    &&& x.len() == y.len()
    &&& forall|i: int|
        0 <= i < x.len() ==> #[trigger] x[i] == ar.over(
            less_products(ar, y[i], lu[i], x, i + 1, x.len() as int),
            lu[i][i],
        )
}

/// `x` solves the factorized system with right-hand side `b`.
pub open spec fn lu_solves<F: Fn(Op, Double, Double) -> Double>(
    ar: Arithmetic<F>,
    lu: Seq<Seq<Double>>,
    piv: Seq<usize>,
    b: Seq<Double>,
    x: Seq<Double>,
) -> bool {
    exists|y: Seq<Double>| #[trigger]
        forward_unit(ar, lu, exchanged(b, piv, b.len() as int), y) && backward(ar, lu, y, x)
}

/// Sum of the logarithms of the magnitudes of the first `n` diagonal entries.
pub open spec fn log_diagonal<F: Fn(Op, Double, Double) -> Double>(
    ar: Arithmetic<F>,
    lu: Seq<Seq<Double>>,
    n: int,
) -> Double
    decreases n,
{
    if n <= 0 {
        num(MINUS_ZERO)
    } else {
        ar.plus(log_diagonal(ar, lu, n - 1), ar.ln(lu[n - 1][n - 1].unsigned()))
    }
}

impl Lu {
    /// Log of the absolute value of the determinant. For a symmetric
    /// positive-definite matrix this is the log of the determinant.
    pub fn ln_det_abs<F: Fn(Op, Double, Double) -> Double>(&self, ar: &Arithmetic<F>) -> (r: Double)
        requires
            self.well_formed(),
            ar.total(),
        ensures
            r == log_diagonal(*ar, self.factors(), self.order() as int),
    {
        let mut s: Double = num(MINUS_ZERO);
        for i in 0..self.n
            invariant
                self.well_formed(),
                ar.total(),
                s == log_diagonal(*ar, self.factors(), i as int),
        {
            s = ar.plus(s, ar.ln(self.lu.at(i, i).abs()));
        }
        s
    }

    /// Solves the system by reusing the factorization.
    pub fn solve<F: Fn(Op, Double, Double) -> Double>(
        &self,
        b: Vec<Double>,
        ar: &Arithmetic<F>,
    ) -> (x: Vec<Double>)
        requires
            self.well_formed(),
            b.len() == self.order(),
            ar.total(),
        ensures
            x.len() == b.len(),
            lu_solves(*ar, self.factors(), self.exchanges(), b@, x@),
    {
        let n: usize = self.n;
        let ghost b0 = b@;
        let mut b: Vec<Double> = b;
        for k in 0..n
            invariant
                self.well_formed(),
                n == self.n,
                b.len() == n,
                b@ == exchanged(b0, self.piv@, k as int),
        {
            let p: usize = self.piv[k];
            let t: Double = b[k];
            let u: Double = b[p];
            b.set(k, u);
            b.set(p, t);
        }
        let ghost moved = b@;
        for i in 0..n
            invariant
                self.well_formed(),
                ar.total(),
                n == self.n,
                b.len() == n,
                moved.len() == n,
                forall|r: int| i <= r < n ==> #[trigger] b@[r] == moved[r],
                forall|r: int|
                    0 <= r < i ==> #[trigger] b@[r] == less_products(
                        *ar,
                        moved[r],
                        self.lu.rows()[r],
                        b@,
                        0,
                        r,
                    ),
        {
            let ghost before = b@;
            let mut s: Double = b[i];
            for j in 0..i
                invariant
                    self.well_formed(),
                    ar.total(),
                    n == self.n,
                    i < n,
                    b.len() == n,
                    b@ == before,
                    s == less_products(
                        *ar,
                        moved[i as int],
                        self.lu.rows()[i as int],
                        b@,
                        0,
                        j as int,
                    ),
            {
                s = ar.minus(s, ar.times(self.lu.at(i, j), b[j]));
            }
            b.set(i, s);
            proof {
                assert forall|r: int| 0 <= r <= i implies #[trigger] b@[r] == less_products(
                    *ar,
                    moved[r],
                    self.lu.rows()[r],
                    b@,
                    0,
                    r,
                ) by {
                    lemma_products_agree(*ar, moved[r], self.lu.rows()[r], before, b@, 0, r);
                    if r < i {
                        assert(before[r] == b@[r]);
                    }
                }
            }
        }
        let ghost y = b@;
        assert(forward_unit(*ar, self.lu.rows(), moved, y));
        let mut left: usize = n;
        while left > 0
            invariant
                self.well_formed(),
                ar.total(),
                n == self.n,
                left <= n,
                b.len() == n,
                y.len() == n,
                forall|r: int| 0 <= r < left ==> #[trigger] b@[r] == y[r],
                forall|r: int|
                    left <= r < n ==> #[trigger] b@[r] == ar.over(
                        less_products(*ar, y[r], self.lu.rows()[r], b@, r + 1, n as int),
                        self.lu.rows()[r][r],
                    ),
            decreases left,
        {
            let i: usize = left - 1;
            let ghost before = b@;
            let mut s: Double = b[i];
            for j in i + 1..n
                invariant
                    self.well_formed(),
                    ar.total(),
                    n == self.n,
                    i < n,
                    i < j,
                    b.len() == n,
                    b@ == before,
                    s == less_products(
                        *ar,
                        y[i as int],
                        self.lu.rows()[i as int],
                        b@,
                        i + 1,
                        j as int,
                    ),
            {
                s = ar.minus(s, ar.times(self.lu.at(i, j), b[j]));
            }
            let x: Double = ar.over(s, self.lu.at(i, i));
            b.set(i, x);
            proof {
                assert forall|r: int| i <= r < n implies #[trigger] b@[r] == ar.over(
                    less_products(*ar, y[r], self.lu.rows()[r], b@, r + 1, n as int),
                    self.lu.rows()[r][r],
                ) by {
                    lemma_products_agree(
                        *ar,
                        y[r],
                        self.lu.rows()[r],
                        before,
                        b@,
                        r + 1,
                        n as int,
                    );
                    if r > i {
                        assert(before[r] == b@[r]);
                    }
                }
            }
            left = i;
        }
        assert(backward(*ar, self.lu.rows(), y, b@));
        b
    }
}

/// `x` is the solution of a system by elimination: the matrix is factorized,
/// and its factors give `x`.
pub open spec fn solution<F: Fn(Op, Double, Double) -> Double>(
    ar: Arithmetic<F>,
    m: Seq<Seq<Double>>,
    b: Seq<Double>,
    x: Seq<Double>,
) -> bool {
    &&& regular(ar, m)
    &&& x.len() == b.len()
    &&& lu_solves(ar, eliminated(ar, m, m.len() as int), exchanges_of(ar, m), b, x)
}

/// The row exchanges of an elimination.
pub open spec fn exchanges_of<F: Fn(Op, Double, Double) -> Double>(
    ar: Arithmetic<F>,
    m: Seq<Seq<Double>>,
) -> Seq<usize> {
    Seq::new(m.len(), |k: int| pivot_of(eliminated(ar, m, k), k) as usize)
}

/// A matrix whose pivot is reported cannot be factorized.
pub proof fn lemma_reported_is_singular<F: Fn(Op, Double, Double) -> Double>(
    ar: Arithmetic<F>,
    m: Seq<Seq<Double>>,
    e: GeostatError,
)
    requires
        reports_pivot(ar, m, e),
    ensures
        !regular(ar, m),
{
    let k = choose|k: int| #[trigger] stops_at(ar, m, k);
    assert(!pivots(ar, m, k));
}

/// The exchanges of a factorization are those of the elimination.
pub proof fn lemma_exchanges<F: Fn(Op, Double, Double) -> Double>(
    ar: Arithmetic<F>,
    lu: Lu,
    m: Seq<Seq<Double>>,
)
    requires
        lu.factors_of(ar, m),
    ensures
        lu.exchanges() == exchanges_of(ar, m),
{
    assert forall|k: int| 0 <= k < m.len() implies #[trigger] lu.exchanges()[k] == exchanges_of(
        ar,
        m,
    )[k] by {}
    assert(lu.exchanges() =~= exchanges_of(ar, m));
}

/// A system has one solution by elimination.
pub proof fn solution_is_unique<F: Fn(Op, Double, Double) -> Double>(
    ar: Arithmetic<F>,
    m: Seq<Seq<Double>>,
    b: Seq<Double>,
    x1: Seq<Double>,
    x2: Seq<Double>,
)
    requires
        solution(ar, m, b, x1),
        solution(ar, m, b, x2),
    ensures
        x1 == x2,
{
    let lu = eliminated(ar, m, m.len() as int);
    let moved = exchanged(b, exchanges_of(ar, m), b.len() as int);
    let y1 = choose|y: Seq<Double>| #[trigger]
        forward_unit(ar, lu, moved, y) && backward(ar, lu, y, x1);
    let y2 = choose|y: Seq<Double>| #[trigger]
        forward_unit(ar, lu, moved, y) && backward(ar, lu, y, x2);
    assert forall|i: int| 0 <= i < y1.len() implies y1[i] == y2[i] by {
        lemma_forward_agrees(ar, lu, moved, y1, y2, i);
    }
    assert(y1 =~= y2);
    assert forall|i: int| 0 <= i < x1.len() implies x1[i] == x2[i] by {
        lemma_backward_agrees(ar, lu, y1, x1, x2, i);
    }
    assert(x1 =~= x2);
}

proof fn lemma_forward_agrees<F: Fn(Op, Double, Double) -> Double>(
    ar: Arithmetic<F>,
    lu: Seq<Seq<Double>>,
    b: Seq<Double>,
    y1: Seq<Double>,
    y2: Seq<Double>,
    i: int,
)
    requires
        forward_unit(ar, lu, b, y1),
        forward_unit(ar, lu, b, y2),
        0 <= i < y1.len(),
    ensures
        y1[i] == y2[i],
    decreases i,
{
    assert forall|j: int| 0 <= j < i implies #[trigger] y1[j] == y2[j] by {
        lemma_forward_agrees(ar, lu, b, y1, y2, j);
    }
    lemma_products_agree(ar, b[i], lu[i], y1, y2, 0, i);
}

proof fn lemma_backward_agrees<F: Fn(Op, Double, Double) -> Double>(
    ar: Arithmetic<F>,
    lu: Seq<Seq<Double>>,
    y: Seq<Double>,
    x1: Seq<Double>,
    x2: Seq<Double>,
    i: int,
)
    requires
        backward(ar, lu, y, x1),
        backward(ar, lu, y, x2),
        0 <= i < x1.len(),
    ensures
        x1[i] == x2[i],
    decreases x1.len() - i,
{
    assert forall|j: int| i + 1 <= j < x1.len() implies #[trigger] x1[j] == x2[j] by {
        lemma_backward_agrees(ar, lu, y, x1, x2, j);
    }
    lemma_products_agree(ar, y[i], lu[i], x1, x2, i + 1, x1.len() as int);
}

/// Solves the dense system `A x = b` via LU with partial pivoting.
pub fn solve<F: Fn(Op, Double, Double) -> Double>(
    a: Matrix,
    b: Vec<Double>,
    ar: &Arithmetic<F>,
) -> (r: Result<Vec<Double>, GeostatError>)
    requires
        a.well_formed(),
        ar.total(),
    ensures
        match r {
            Ok(x) => {
                &&& a.square(b.len() as nat)
                &&& solution(*ar, a.rows(), b@, x@)
            },
            Err(e) => if a.rows().len() != b.len() {
                mismatch(
                    e,
                    "A is "@ + digits(a.rows().len()) + "x"@ + digits(width_of(a))
                        + ", b has length "@ + digits(b.len() as nat),
                )
            } else if width_of(a) != a.rows().len() {
                mismatch(
                    e,
                    "A is "@ + digits(a.rows().len()) + "x"@ + digits(width_of(a))
                        + ", must be square"@,
                )
            } else {
                reports_pivot(*ar, a.rows(), e)
            },
        },
{
    let n: usize = a.height();
    if b.len() != n {
        let cols: usize = a.width();
        return Err(
            mismatched(
                concat2(
                    concat5(
                        "A is ",
                        decimal(n).as_str(),
                        "x",
                        decimal(cols).as_str(),
                        ", b has length ",
                    ).as_str(),
                    decimal(b.len()).as_str(),
                ),
            ),
        );
    }
    let ghost m = a.rows();
    match lu_factor(a, ar) {
        Err(e) => Err(e),
        Ok(lu) => {
            proof {
                lemma_exchanges(*ar, lu, m);
            }
            Ok(lu.solve(b, ar))
        },
    }
}

// ---------------------------------------------------------------------------
// Cholesky
// ---------------------------------------------------------------------------

/// Position of row `i`, column `j` in a matrix of order `n` held by rows.
pub open spec fn cell(n: nat, i: int, j: int) -> int {
    i * n + j
}

/// Entry of a matrix of order `n` held by rows.
pub open spec fn entry(a: Seq<Double>, n: nat, i: int, j: int) -> Double {
    a[cell(n, i, j)]
}

/// Entry of the Cholesky factor of a symmetric matrix in row `i`, column
/// `k <= i`.
pub open spec fn lower<F: Fn(Op, Double, Double) -> Double>(
    ar: Arithmetic<F>,
    a: Seq<Double>,
    n: nat,
    i: int,
    k: int,
) -> Double
    decreases k, (if i == k { 1nat } else { 2nat }), 0nat,
{
    if k < 0 {
        num(0)
    } else if i == k {
        ar.sqrt(remainder(ar, a, n, k, k, k as nat))
    } else {
        ar.over(remainder(ar, a, n, i, k, k as nat), lower(ar, a, n, k, k))
    }
}

/// Entry `(i, k)` of the matrix less the products of the first `m` entries of
/// rows `i` and `k` of the factor.
pub open spec fn remainder<F: Fn(Op, Double, Double) -> Double>(
    ar: Arithmetic<F>,
    a: Seq<Double>,
    n: nat,
    i: int,
    k: int,
    m: nat,
) -> Double
    decreases k, 0nat, m,
{
    if m == 0 || m > k {
        entry(a, n, i, k)
    } else {
        ar.minus(
            remainder(ar, a, n, i, k, (m - 1) as nat),
            ar.times(lower(ar, a, n, i, m - 1), lower(ar, a, n, k, m - 1)),
        )
    }
}

/// Greatest of zero and the first `k` diagonal entries.
pub open spec fn diagonal_peak(a: Seq<Double>, n: nat, k: nat) -> Double
    decreases k,
{
    if k == 0 {
        num(0)
    } else {
        diagonal_peak(a, n, (k - 1) as nat).greater(entry(a, n, k - 1, k - 1))
    }
}

/// Scale of a symmetric matrix: its greatest diagonal entry, and not zero.
pub open spec fn diagonal_scale(a: Seq<Double>, n: nat) -> Double {
    diagonal_peak(a, n, n).greater(num(LEAST))
}

/// The pivot in column `k` is meaningfully positive.
pub open spec fn positive_pivot<F: Fn(Op, Double, Double) -> Double>(
    ar: Arithmetic<F>,
    a: Seq<Double>,
    n: nat,
    k: int,
) -> bool {
    ar.times(num(TINY_PIVOT), diagonal_scale(a, n)).below(remainder(ar, a, n, k, k, k as nat))
}

/// The pivots before column `k` are meaningfully positive.
pub open spec fn positive_before<F: Fn(Op, Double, Double) -> Double>(
    ar: Arithmetic<F>,
    a: Seq<Double>,
    n: nat,
    k: int,
) -> bool {
    forall|c: int| 0 <= c < k ==> #[trigger] positive_pivot(ar, a, n, c)
}

/// The matrix is positive definite as far as the factorization can tell.
pub open spec fn positive_definite<F: Fn(Op, Double, Double) -> Double>(
    ar: Arithmetic<F>,
    a: Seq<Double>,
    n: nat,
) -> bool {
    positive_before(ar, a, n, n as int)
}

/// Column `k` is the first whose pivot is not meaningfully positive.
pub open spec fn fails_at<F: Fn(Op, Double, Double) -> Double>(
    ar: Arithmetic<F>,
    a: Seq<Double>,
    n: nat,
    k: int,
) -> bool {
    0 <= k < n && positive_before(ar, a, n, k) && !positive_pivot(ar, a, n, k)
}

/// `f` holds the factor in the first `k` columns of its lower triangle and the
/// matrix elsewhere.
pub open spec fn factored<F: Fn(Op, Double, Double) -> Double>(
    ar: Arithmetic<F>,
    a: Seq<Double>,
    n: nat,
    k: int,
    f: Seq<Double>,
) -> bool {
    &&& f.len() == a.len()
    &&& forall|i: int, j: int|
        0 <= i < n && 0 <= j < n ==> #[trigger] entry(f, n, i, j) == (if j <= i && j < k {
            lower(ar, a, n, i, j)
        } else {
            entry(a, n, i, j)
        })
}

/// The error reports the pivot in column `k`.
pub open spec fn reports_column<F: Fn(Op, Double, Double) -> Double>(
    ar: Arithmetic<F>,
    a: Seq<Double>,
    n: nat,
    k: int,
    e: GeostatError,
) -> bool {
    singular(
        e,
        "non-positive Cholesky pivot {:.3e} at column "@ + digits(k as nat) + " (scale {:.3e})"@,
        seq![remainder(ar, a, n, k, k, k as nat), diagonal_scale(a, n)],
    )
}

/// The matrix stays as it was up to column `k`, where the factorization fails.
pub open spec fn breaks_off<F: Fn(Op, Double, Double) -> Double>(
    ar: Arithmetic<F>,
    a: Seq<Double>,
    n: nat,
    f: Seq<Double>,
    e: GeostatError,
) -> bool {
    exists|k: int| #[trigger]
        fails_at(ar, a, n, k) && factored(ar, a, n, k, f) && reports_column(ar, a, n, k, e)
}

proof fn lemma_cell(n: nat, i: int, j: int)
    requires
        0 <= i < n,
        0 <= j < n,
    ensures
        0 <= cell(n, i, j) < n * n,
{
    assert(0 <= i * n + j < n * n) by (nonlinear_arith)
        requires
            0 <= i < n,
            0 <= j < n,
    ;
}

proof fn lemma_cells_differ(n: nat, i: int, j: int, r: int, c: int)
    requires
        0 <= i < n,
        0 <= j < n,
        0 <= r < n,
        0 <= c < n,
        cell(n, i, j) == cell(n, r, c),
    ensures
        i == r,
        j == c,
{
    assert(i == r) by (nonlinear_arith)
        requires
            0 <= j < n,
            0 <= c < n,
            i * n + j == r * n + c,
    ;
}

/// What entries read after one entry was set.
proof fn lemma_entry_set(a: Seq<Double>, n: nat, i: int, j: int, v: Double)
    requires
        a.len() == n * n,
        0 <= i < n,
        0 <= j < n,
    ensures
        forall|r: int, c: int|
            0 <= r < n && 0 <= c < n ==> #[trigger] entry(a.update(cell(n, i, j), v), n, r, c) == (
            if r == i && c == j {
                v
            } else {
                entry(a, n, r, c)
            }),
{
    lemma_cell(n, i, j);
    assert forall|r: int, c: int| 0 <= r < n && 0 <= c < n implies #[trigger] entry(
        a.update(cell(n, i, j), v),
        n,
        r,
        c,
    ) == (if r == i && c == j {
        v
    } else {
        entry(a, n, r, c)
    }) by {
        lemma_cell(n, r, c);
        if cell(n, r, c) == cell(n, i, j) {
            lemma_cells_differ(n, r, c, i, j);
        }
    }
}

/// Position of row `i`, column `j`.
fn cell_at(n: usize, i: usize, j: usize) -> (r: usize)
    requires
        n * n <= usize::MAX,
        i < n,
        j < n,
    ensures
        r == cell(n as nat, i as int, j as int),
        r < n * n,
{
    proof {
        lemma_cell(n as nat, i as int, j as int);
        assert(i * n <= i * n + j);
        assert(0 <= i * n) by (nonlinear_arith);
    }
    i * n + j
}

/// Greatest diagonal entry, and not zero.
fn find_diagonal_scale(a: &Vec<Double>, n: usize) -> (s: Double)
    requires
        a.len() == n * n,
    ensures
        s == diagonal_scale(a@, n as nat),
{
    let mut s: Double = Double::zero();
    for i in 0..n
        invariant
            a.len() == n * n,
            s == diagonal_peak(a@, n as nat, i as nat),
    {
        s = s.max(a[cell_at(n, i, i)]);
    }
    s.max(num(LEAST))
}

/// Cholesky-factorizes the symmetric positive-definite matrix `a` of order `n`,
/// held by rows, in place; only the lower triangle is read. Fails with
/// `SingularSystem` when a pivot is not meaningfully positive; the columns
/// before it then hold the factor.
pub fn cholesky_factor_in_place<F: Fn(Op, Double, Double) -> Double>(
    a: &mut Vec<Double>,
    n: usize,
    ar: &Arithmetic<F>,
) -> (r: Result<
    (),
    GeostatError,
>)
    requires
        ar.total(),
        n * n <= usize::MAX,
    ensures
        match r {
            Ok(_) => old(a).len() == n * n && positive_definite(*ar, old(a)@, n as nat)
                && factored(*ar, old(a)@, n as nat, n as int, final(a)@),
            Err(e) => if old(a).len() != n * n {
                final(a)@ == old(a)@ && mismatch(
                    e,
                    "A has "@ + digits(old(a).len() as nat) + " entries, expected "@ + digits(
                        (n * n) as nat,
                    ),
                )
            } else {
                breaks_off(*ar, old(a)@, n as nat, final(a)@, e)
            },
        },
{
    if a.len() != n * n {
        return Err(
            mismatched(
                concat4(
                    "A has ",
                    decimal(a.len()).as_str(),
                    " entries, expected ",
                    decimal(n * n).as_str(),
                ),
            ),
        );
    }
    let ghost a0 = a@;
    let ghost order = n as nat;
    let scale: Double = find_diagonal_scale(a, n);
    let least: Double = ar.times(num(TINY_PIVOT), scale);
    for k in 0..n
        invariant
            ar.total(),
            n * n <= usize::MAX,
            order == n,
            a0 == old(a)@,
            a0.len() == n * n,
            a.len() == n * n,
            scale == diagonal_scale(a0, order),
            least == ar.times(num(TINY_PIVOT), diagonal_scale(a0, order)),
            positive_before(*ar, a0, order, k as int),
            factored(*ar, a0, order, k as int, a@),
    {
        proof {
            lemma_cell(order, k as int, k as int);
        }
        let mut d: Double = a[cell_at(n, k, k)];
        assert(d == entry(a@, order, k as int, k as int));
        for j in 0..k
            invariant
                ar.total(),
                n * n <= usize::MAX,
                order == n,
                k < n,
                a.len() == n * n,
                factored(*ar, a0, order, k as int, a@),
                d == remainder(*ar, a0, order, k as int, k as int, j as nat),
        {
            let v: Double = a[cell_at(n, k, j)];
            assert(v == entry(a@, order, k as int, j as int));
            d = ar.minus(d, ar.times(v, v));
        }
        if !least.lt(d) {
            assert(fails_at(*ar, a0, order, k as int));
            return Err(
                unsolvable(
                    concat3(
                        "non-positive Cholesky pivot {:.3e} at column ",
                        decimal(k).as_str(),
                        " (scale {:.3e})",
                    ),
                    d,
                    scale,
                ),
            );
        }
        assert(positive_pivot(*ar, a0, order, k as int));
        let d: Double = ar.sqrt(d);
        proof {
            lemma_entry_set(a@, order, k as int, k as int, d);
        }
        a.set(cell_at(n, k, k), d);
        for i in k + 1..n
            invariant
                ar.total(),
                n * n <= usize::MAX,
                order == n,
                k < n,
                k < i,
                a0.len() == n * n,
                a.len() == n * n,
                d == lower(*ar, a0, order, k as int, k as int),
                forall|r: int, c: int|
                    0 <= r < n && 0 <= c < n ==> #[trigger] entry(a@, order, r, c) == (if c <= r
                        && (c < k || (c == k && r < i)) {
                        lower(*ar, a0, order, r, c)
                    } else {
                        entry(a0, order, r, c)
                    }),
        {
            let mut s: Double = a[cell_at(n, i, k)];
            assert(s == entry(a@, order, i as int, k as int));
            for j in 0..k
                invariant
                    ar.total(),
                    n * n <= usize::MAX,
                    order == n,
                    k < i < n,
                    a.len() == n * n,
                    forall|r: int, c: int|
                        0 <= r < n && 0 <= c < k && c <= r ==> #[trigger] entry(a@, order, r, c)
                            == lower(*ar, a0, order, r, c),
                    s == remainder(*ar, a0, order, i as int, k as int, j as nat),
            {
                let u: Double = a[cell_at(n, i, j)];
                let v: Double = a[cell_at(n, k, j)];
                assert(u == entry(a@, order, i as int, j as int));
                assert(v == entry(a@, order, k as int, j as int));
                s = ar.minus(s, ar.times(u, v));
            }
            let q: Double = ar.over(s, d);
            proof {
                lemma_entry_set(a@, order, i as int, k as int, q);
            }
            a.set(cell_at(n, i, k), q);
        }
        assert(factored(*ar, a0, order, k + 1, a@));
    }
    Ok(())
}

/// Row `i` of a matrix held by rows.
pub open spec fn row_of(a: Seq<Double>, n: nat, i: int) -> Seq<Double> {
    Seq::new(n, |j: int| entry(a, n, i, j))
}

/// Column `i` of a matrix held by rows.
pub open spec fn column_of(a: Seq<Double>, n: nat, i: int) -> Seq<Double> {
    Seq::new(n, |j: int| entry(a, n, j, i))
}

/// `y` solves `L y = b` by forward substitution.
pub open spec fn forward<F: Fn(Op, Double, Double) -> Double>(
    ar: Arithmetic<F>,
    l: Seq<Double>,
    n: nat,
    b: Seq<Double>,
    y: Seq<Double>,
) -> bool {
    &&& y.len() == b.len()
    &&& forall|i: int|
        0 <= i < n ==> #[trigger] y[i] == ar.over(
            less_products(ar, b[i], row_of(l, n, i), y, 0, i),
            entry(l, n, i, i),
        )
}

/// `x` solves the transposed system by back substitution.
pub open spec fn transposed<F: Fn(Op, Double, Double) -> Double>(
    ar: Arithmetic<F>,
    l: Seq<Double>,
    n: nat,
    y: Seq<Double>,
    x: Seq<Double>,
) -> bool {
    &&& x.len() == y.len()
    &&& forall|i: int|
        0 <= i < n ==> #[trigger] x[i] == ar.over(
            less_products(ar, y[i], column_of(l, n, i), x, i + 1, n as int),
            entry(l, n, i, i),
        )
}

/// Forward substitution `L y = b` against a factor; overwrites `b` with `y`.
pub fn cholesky_forward_solve<F: Fn(Op, Double, Double) -> Double>(
    a: &Vec<Double>,
    n: usize,
    b: &mut Vec<Double>,
    ar: &Arithmetic<F>,
)
    requires
        ar.total(),
        n * n <= usize::MAX,
        a.len() == n * n,
        old(b).len() == n,
    ensures
        forward(*ar, a@, n as nat, old(b)@, final(b)@),
{
    let ghost b0 = b@;
    let ghost order = n as nat;
    for i in 0..n
        invariant
            ar.total(),
            n * n <= usize::MAX,
            order == n,
            a.len() == n * n,
            b0.len() == n,
            b.len() == n,
            forall|r: int| i <= r < n ==> #[trigger] b@[r] == b0[r],
            forall|r: int|
                0 <= r < i ==> #[trigger] b@[r] == ar.over(
                    less_products(*ar, b0[r], row_of(a@, order, r), b@, 0, r),
                    entry(a@, order, r, r),
                ),
    {
        let ghost before = b@;
        let mut s: Double = b[i];
        for j in 0..i
            invariant
                ar.total(),
                n * n <= usize::MAX,
                order == n,
                i < n,
                a.len() == n * n,
                b.len() == n,
                b@ == before,
                s == less_products(*ar, b0[i as int], row_of(a@, order, i as int), b@, 0, j as int),
        {
            let v: Double = a[cell_at(n, i, j)];
            assert(v == row_of(a@, order, i as int)[j as int]);
            s = ar.minus(s, ar.times(v, b[j]));
        }
        let x: Double = ar.over(s, a[cell_at(n, i, i)]);
        b.set(i, x);
        proof {
            assert forall|r: int| 0 <= r <= i implies #[trigger] b@[r] == ar.over(
                less_products(*ar, b0[r], row_of(a@, order, r), b@, 0, r),
                entry(a@, order, r, r),
            ) by {
                lemma_products_agree(*ar, b0[r], row_of(a@, order, r), before, b@, 0, r);
                if r < i {
                    assert(before[r] == b@[r]);
                }
            }
        }
    }
}

/// Back substitution against the transposed factor; overwrites `b` with the
/// solution.
pub fn cholesky_back_solve<F: Fn(Op, Double, Double) -> Double>(
    a: &Vec<Double>,
    n: usize,
    b: &mut Vec<Double>,
    ar: &Arithmetic<F>,
)
    requires
        ar.total(),
        n * n <= usize::MAX,
        a.len() == n * n,
        old(b).len() == n,
    ensures
        transposed(*ar, a@, n as nat, old(b)@, final(b)@),
{
    let ghost y = b@;
    let ghost order = n as nat;
    let mut left: usize = n;
    while left > 0
        invariant
            ar.total(),
            n * n <= usize::MAX,
            order == n,
            left <= n,
            a.len() == n * n,
            y.len() == n,
            b.len() == n,
            forall|r: int| 0 <= r < left ==> #[trigger] b@[r] == y[r],
            forall|r: int|
                left <= r < n ==> #[trigger] b@[r] == ar.over(
                    less_products(*ar, y[r], column_of(a@, order, r), b@, r + 1, n as int),
                    entry(a@, order, r, r),
                ),
        decreases left,
    {
        let i: usize = left - 1;
        let ghost before = b@;
        let mut s: Double = b[i];
        for j in i + 1..n
            invariant
                ar.total(),
                n * n <= usize::MAX,
                order == n,
                i < n,
                i < j,
                a.len() == n * n,
                b.len() == n,
                b@ == before,
                s == less_products(
                    *ar,
                    y[i as int],
                    column_of(a@, order, i as int),
                    b@,
                    i + 1,
                    j as int,
                ),
        {
            let v: Double = a[cell_at(n, j, i)];
            assert(v == column_of(a@, order, i as int)[j as int]);
            s = ar.minus(s, ar.times(v, b[j]));
        }
        let x: Double = ar.over(s, a[cell_at(n, i, i)]);
        b.set(i, x);
        proof {
            assert forall|r: int| i <= r < n implies #[trigger] b@[r] == ar.over(
                less_products(*ar, y[r], column_of(a@, order, r), b@, r + 1, n as int),
                entry(a@, order, r, r),
            ) by {
                lemma_products_agree(
                    *ar,
                    y[r],
                    column_of(a@, order, r),
                    before,
                    b@,
                    r + 1,
                    n as int,
                );
                if r > i {
                    assert(before[r] == b@[r]);
                }
            }
        }
        left = i;
    }
}

/// `x` solves the symmetric positive-definite system with matrix `a` and
/// right-hand side `b` by the Cholesky factor.
pub open spec fn definite_solution<F: Fn(Op, Double, Double) -> Double>(
    ar: Arithmetic<F>,
    a: Seq<Double>,
    n: nat,
    b: Seq<Double>,
    x: Seq<Double>,
) -> bool {
    &&& positive_definite(ar, a, n)
    &&& x.len() == b.len()
    &&& exists|l: Seq<Double>, y: Seq<Double>| #[trigger]
        factored(ar, a, n, n as int, l) && #[trigger] forward(ar, l, n, b, y) && transposed(
            ar,
            l,
            n,
            y,
            x,
        )
}

/// Solves the symmetric positive-definite system `A x = b` in place: `a` holds
/// the matrix by rows and is overwritten with the Cholesky factor, `b` is
/// overwritten with the solution. Fails with `SingularSystem` when a pivot is
/// not meaningfully positive.
pub fn cholesky_solve_in_place<F: Fn(Op, Double, Double) -> Double>(
    a: &mut Vec<Double>,
    n: usize,
    b: &mut Vec<Double>,
    ar: &Arithmetic<F>,
) -> (r:
    Result<(), GeostatError>)
    requires
        ar.total(),
        n * n <= usize::MAX,
    ensures
        match r {
            Ok(_) => {
                &&& old(a).len() == n * n
                &&& old(b).len() == n
                &&& definite_solution(*ar, old(a)@, n as nat, old(b)@, final(b)@)
                &&& factored(*ar, old(a)@, n as nat, n as int, final(a)@)
            },
            Err(e) => final(b)@ == old(b)@ && if old(b).len() != n {
                final(a)@ == old(a)@ && mismatch(
                    e,
                    "b has "@ + digits(old(b).len() as nat) + " entries, expected "@ + digits(
                        n as nat,
                    ),
                )
            } else if old(a).len() != n * n {
                final(a)@ == old(a)@ && mismatch(
                    e,
                    "A has "@ + digits(old(a).len() as nat) + " entries, expected "@ + digits(
                        (n * n) as nat,
                    ),
                )
            } else {
                breaks_off(*ar, old(a)@, n as nat, final(a)@, e)
            },
        },
{
    if b.len() != n {
        return Err(
            mismatched(
                concat4(
                    "b has ",
                    decimal(b.len()).as_str(),
                    " entries, expected ",
                    decimal(n).as_str(),
                ),
            ),
        );
    }
    match cholesky_factor_in_place(a, n, ar) {
        Err(e) => {
            return Err(e);
        },
        Ok(_) => {},
    }
    let ghost b0 = b@;
    cholesky_forward_solve(a, n, b, ar);
    let ghost y = b@;
    cholesky_back_solve(a, n, b, ar);
    assert(forward(*ar, a@, n as nat, b0, y));
    Ok(())
}

/// A positive-definite system has one solution by the Cholesky factor.
pub proof fn definite_solution_is_unique<F: Fn(Op, Double, Double) -> Double>(
    ar: Arithmetic<F>,
    a: Seq<Double>,
    n: nat,
    b: Seq<Double>,
    x1: Seq<Double>,
    x2: Seq<Double>,
)
    requires
        a.len() == n * n,
        b.len() == n,
        definite_solution(ar, a, n, b, x1),
        definite_solution(ar, a, n, b, x2),
    ensures
        x1 == x2,
{
    let (l1, y1) = choose|l: Seq<Double>, y: Seq<Double>| #[trigger]
        factored(ar, a, n, n as int, l) && #[trigger] forward(ar, l, n, b, y) && transposed(
            ar,
            l,
            n,
            y,
            x1,
        );
    let (l2, y2) = choose|l: Seq<Double>, y: Seq<Double>| #[trigger]
        factored(ar, a, n, n as int, l) && #[trigger] forward(ar, l, n, b, y) && transposed(
            ar,
            l,
            n,
            y,
            x2,
        );
    assert forall|i: int, j: int| 0 <= i < n && 0 <= j < n implies #[trigger] entry(l1, n, i, j)
        == entry(l2, n, i, j) by {}
    assert forall|i: int| 0 <= i < n implies y1[i] == y2[i] by {
        lemma_cholesky_forward_agrees(ar, l1, l2, n, b, y1, y2, i);
    }
    assert(y1 =~= y2);
    assert forall|i: int| 0 <= i < n implies x1[i] == x2[i] by {
        lemma_cholesky_back_agrees(ar, l1, l2, n, y1, x1, x2, i);
    }
    assert(x1 =~= x2);
}

proof fn lemma_cholesky_forward_agrees<F: Fn(Op, Double, Double) -> Double>(
    ar: Arithmetic<F>,
    l1: Seq<Double>,
    l2: Seq<Double>,
    n: nat,
    b: Seq<Double>,
    y1: Seq<Double>,
    y2: Seq<Double>,
    i: int,
)
    requires
        forward(ar, l1, n, b, y1),
        forward(ar, l2, n, b, y2),
        forall|r: int, c: int|
            0 <= r < n && 0 <= c < n ==> #[trigger] entry(l1, n, r, c) == entry(l2, n, r, c),
        b.len() == n,
        0 <= i < n,
    ensures
        y1[i] == y2[i],
    decreases i,
{
    assert forall|j: int| 0 <= j < i implies #[trigger] y1[j] == y2[j] by {
        lemma_cholesky_forward_agrees(ar, l1, l2, n, b, y1, y2, j);
    }
    assert(row_of(l1, n, i) =~= row_of(l2, n, i));
    assert(entry(l1, n, i, i) == entry(l2, n, i, i));
    lemma_products_agree(ar, b[i], row_of(l1, n, i), y1, y2, 0, i);
}

proof fn lemma_cholesky_back_agrees<F: Fn(Op, Double, Double) -> Double>(
    ar: Arithmetic<F>,
    l1: Seq<Double>,
    l2: Seq<Double>,
    n: nat,
    y: Seq<Double>,
    x1: Seq<Double>,
    x2: Seq<Double>,
    i: int,
)
    requires
        transposed(ar, l1, n, y, x1),
        transposed(ar, l2, n, y, x2),
        forall|r: int, c: int|
            0 <= r < n && 0 <= c < n ==> #[trigger] entry(l1, n, r, c) == entry(l2, n, r, c),
        y.len() == n,
        0 <= i < n,
    ensures
        x1[i] == x2[i],
    decreases n - i,
{
    assert forall|j: int| i + 1 <= j < n implies #[trigger] x1[j] == x2[j] by {
        lemma_cholesky_back_agrees(ar, l1, l2, n, y, x1, x2, j);
    }
    assert(column_of(l1, n, i) =~= column_of(l2, n, i));
    assert(entry(l1, n, i, i) == entry(l2, n, i, i));
    lemma_products_agree(ar, y[i], column_of(l1, n, i), x1, x2, i + 1, n as int);
}

} // verus!

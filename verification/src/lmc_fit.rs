//! Fit of a two-variable model of coregionalization to experimental curves, by
//! coordinate descent over the structures with a projection onto the positive
//! semi-definite matrices.

use vstd::prelude::*;

use crate::arith::{num, Arithmetic, HALF, LEAST, MINUS_ZERO, Op, TWO};
use crate::data::PointSet;
use crate::double::{Double, HIDDEN, ONE};
use crate::error::{insufficient, invalid, invalid_parameter, GeostatError, Message};
use crate::io_utils::VariogramBin;
use crate::linalg::{lemma_reported_is_singular, regular, reports_pivot, solution, solve};
use crate::lmc::{lmc_outcome, Anisotropy, Lmc, LmcStructure};
use crate::matrix::{holdable, Matrix};
use crate::text::{concat3, decimal, digits};

verus! {

/// Bit pattern of the ridge on the normal equations, relative to their
/// greatest diagonal entry.
pub const FIT_RIDGE: u64 = 0x3E11_2E0B_E826_D695;

/// Bit pattern of the relative improvement below which the descent ends.
pub const SETTLED: u64 = 0x3D71_9799_812D_EA11;

/// Bit pattern of what is taken to be next to zero.
pub const NEXT_TO_ZERO: u64 = 0x01A5_6E1F_C2F8_F359;

/// Bit pattern of four.
pub const FOUR: u64 = 0x4010_0000_0000_0000;

/// Most sweeps of the descent.
pub const SWEEPS: usize = 100;

/// A structure of the template: its shape by lag distance and by separation
/// vector, both with unit sill.
#[derive(Debug)]
pub struct TemplateStructure<const D: usize, S, G> {
    /// Semivariance with unit sill for a lag distance.
    pub at_lag: S,
    /// Semivariance with unit sill for a separation vector.
    pub shape: G,
    /// Range parameter.
    pub range: Double,
    /// Geometric anisotropy, if any.
    pub anis: Option<Anisotropy>,
}

/// The two sills and the cosill of one structure.
#[derive(Debug, Clone, Copy, PartialEq, Eq, Structural)]
pub struct PairSills {
    /// Sill of the first variable.
    pub aa: Double,
    /// Sill of the second variable.
    pub bb: Double,
    /// Cosill.
    pub ab: Double,
}

/// Value of a shape at a lag.
pub open spec fn lag_value<S: Fn(Double) -> Double>(s: S, h: Double) -> Double {
    choose|r: Double| call_ensures(s, (h,), r)
}

/// A shape can be computed at every lag, and is one value.
pub open spec fn lag_total<S: Fn(Double) -> Double>(s: S) -> bool {
    &&& forall|h: Double| #[trigger] call_requires(s, (h,))
    &&& forall|h: Double, r: Double| #[trigger]
        call_ensures(s, (h,), r) ==> r == lag_value(s, h)
}

/// All shapes of the template can be computed.
pub open spec fn template_total<const D: usize, S: Fn(Double) -> Double, G>(
    template: Seq<TemplateStructure<D, S, G>>,
) -> bool {
    forall|s: int| 0 <= s < template.len() ==> lag_total((#[trigger] template[s]).at_lag)
}

/// Basis functions at a lag: the nugget's one, then the structures.
pub open spec fn basis_at<const D: usize, S: Fn(Double) -> Double, G>(
    template: Seq<TemplateStructure<D, S, G>>,
    h: Double,
) -> Seq<Double> {
    Seq::new(
        1 + template.len(),
        |k: int|
            if k == 0 {
                num(ONE)
            } else {
                lag_value(template[k - 1].at_lag, h)
            },
    )
}

/// A bin that the fit can use.
pub open spec fn usable(b: VariogramBin) -> bool {
    b.n_pairs > 0 && b.h.is_positive() && b.gamma.is_finite()
}

/// The bins that the fit can use, in order.
pub open spec fn usable_bins(bins: Seq<VariogramBin>) -> Seq<VariogramBin>
    decreases bins.len(),
{
    if bins.len() == 0 {
        Seq::empty()
    } else if usable(bins.last()) {
        usable_bins(bins.drop_last()).push(bins.last())
    } else {
        usable_bins(bins.drop_last())
    }
}

/// One experimental curve prepared for the fit.
#[derive(Debug)]
pub struct LmcCurve {
    /// Semivariances.
    pub gamma: Vec<Double>,
    /// Weights: pairs over squared lag.
    pub w: Vec<Double>,
    /// Basis functions by bin.
    pub basis: Vec<Vec<Double>>,
}

impl LmcCurve {
    /// One weight and `n` basis functions for each semivariance.
    pub open spec fn has(&self, n: nat) -> bool {
        &&& self.w@.len() == self.gamma@.len()
        &&& self.basis@.len() == self.gamma@.len()
        &&& forall|i: int| 0 <= i < self.basis@.len() ==> (#[trigger] self.basis@[i])@.len() == n
    }

    /// The curve holds the bins.
    pub open spec fn prepared<const D: usize, S: Fn(Double) -> Double, G, F: Fn(Op, Double, Double) -> Double>(
        &self,
        ar: Arithmetic<F>,
        template: Seq<TemplateStructure<D, S, G>>,
        kept: Seq<VariogramBin>,
    ) -> bool {
        &&& self.has(1 + template.len())
        &&& self.gamma@.len() == kept.len()
        &&& forall|i: int|
            0 <= i < kept.len() ==> {
                &&& self.gamma@[i] == (#[trigger] kept[i]).gamma
                &&& self.w@[i] == ar.over(
                    Double::count(kept[i].n_pairs as nat),
                    ar.times(kept[i].h, kept[i].h),
                )
                &&& self.basis@[i]@ == basis_at(template, kept[i].h)
            }
    }
}

/// Pair counts that doubles can hold.
pub open spec fn countable_bins(bins: Seq<VariogramBin>) -> bool {
    forall|i: int| 0 <= i < bins.len() ==> (#[trigger] bins[i]).n_pairs < 2 * HIDDEN
}

/// Text that asks for more lag bins.
pub open spec fn few_bins_text(n: nat) -> Seq<char> {
    "LMC fit needs more non-empty lag bins than parameters ("@ + digits(n) + ")"@
}

/// Prepares a curve.
fn prepare<const D: usize, S: Fn(Double) -> Double, G, F: Fn(Op, Double, Double) -> Double>(
    bins: &Vec<VariogramBin>,
    template: &Vec<TemplateStructure<D, S, G>>,
    ar: &Arithmetic<F>,
) -> (r: Result<LmcCurve, GeostatError>)
    requires
        ar.total(),
        template_total(template@),
        template.len() < usize::MAX - 1,
        countable_bins(bins@),
    ensures
        match r {
            Ok(c) => {
                &&& usable_bins(bins@).len() >= template@.len() + 2
                &&& c.prepared(*ar, template@, usable_bins(bins@))
            },
            Err(e) => {
                &&& usable_bins(bins@).len() < template@.len() + 2
                &&& insufficient(e, few_bins_text(1 + template@.len()))
            },
        },
{
    let n_par: usize = 1 + template.len();
    let mut curve: LmcCurve = LmcCurve { gamma: Vec::new(), w: Vec::new(), basis: Vec::new() };
    for i in 0..bins.len()
        invariant
            ar.total(),
            template_total(template@),
            n_par == 1 + template.len(),
            countable_bins(bins@),
            curve.prepared(*ar, template@, usable_bins(bins@.take(i as int))),
    {
        let b: VariogramBin = bins[i];
        assert(bins@.take(i + 1).drop_last() =~= bins@.take(i as int));
        assert(bins@[i as int].n_pairs < 2 * HIDDEN);
        if b.n_pairs > 0 && b.h.is_positive() && b.gamma.is_finite() {
            let mut row: Vec<Double> = Vec::new();
            row.push(num(ONE));
            for s in 0..template.len()
                invariant
                    template_total(template@),
                    row@ =~= basis_at(template@, b.h).take(s + 1),
            {
                assert(lag_total(template@[s as int].at_lag));
                let x: Double = (template[s].at_lag)(b.h);
                row.push(x);
            }
            assert(row@ =~= basis_at(template@, b.h));
            curve.gamma.push(b.gamma);
            curve.w.push(ar.over(Double::from_count(b.n_pairs), ar.times(b.h, b.h)));
            curve.basis.push(row);
        }
    }
    assert(bins@.take(bins.len() as int) =~= bins@);
    if curve.gamma.len() < n_par + 1 {
        return Err(
            GeostatError::InsufficientData(
                Message::owned(
                    concat3(
                        "LMC fit needs more non-empty lag bins than parameters (",
                        decimal(n_par).as_str(),
                        ")",
                    ),
                ),
            ),
        );
    }
    Ok(curve)
}

/// Entry of the normal matrix from the first `m` bins.
pub open spec fn normal_cell<F: Fn(Op, Double, Double) -> Double>(
    ar: Arithmetic<F>,
    c: LmcCurve,
    r: int,
    k: int,
    m: int,
) -> Double
    decreases m,
{
    if m <= 0 {
        num(0)
    } else {
        ar.plus(
            normal_cell(ar, c, r, k, m - 1),
            ar.times(ar.times(c.w@[m - 1], c.basis@[m - 1]@[r]), c.basis@[m - 1]@[k]),
        )
    }
}

/// Right-hand side of the normal equations from the first `m` bins.
pub open spec fn normal_rhs<F: Fn(Op, Double, Double) -> Double>(
    ar: Arithmetic<F>,
    c: LmcCurve,
    r: int,
    m: int,
) -> Double
    decreases m,
{
    if m <= 0 {
        num(0)
    } else {
        ar.plus(
            normal_rhs(ar, c, r, m - 1),
            ar.times(ar.times(c.w@[m - 1], c.basis@[m - 1]@[r]), c.gamma@[m - 1]),
        )
    }
}

/// Greatest of zero and the first `n` diagonal entries of the normal matrix.
pub open spec fn normal_scale<F: Fn(Op, Double, Double) -> Double>(
    ar: Arithmetic<F>,
    c: LmcCurve,
    n: int,
) -> Double
    decreases n,
{
    if n <= 0 {
        num(0)
    } else {
        normal_scale(ar, c, n - 1).max(
            normal_cell(ar, c, n - 1, n - 1, c.gamma@.len() as int),
        )
    }
}

/// The normal matrix with its ridge.
pub open spec fn normal_matrix<F: Fn(Op, Double, Double) -> Double>(
    ar: Arithmetic<F>,
    c: LmcCurve,
    n: nat,
) -> Seq<Seq<Double>> {
    Seq::new(
        n,
        |r: int|
            Seq::new(
                n,
                |k: int|
                    {
                        let x = normal_cell(ar, c, r, k, c.gamma@.len() as int);
                        if r == k {
                            ar.plus(
                                x,
                                ar.times(
                                    num(FIT_RIDGE),
                                    normal_scale(ar, c, n as int).max(num(LEAST)),
                                ),
                            )
                        } else {
                            x
                        }
                    },
            ),
    )
}

/// Right-hand side of the normal equations.
pub open spec fn normal_vector<F: Fn(Op, Double, Double) -> Double>(
    ar: Arithmetic<F>,
    c: LmcCurve,
    n: nat,
) -> Seq<Double> {
    Seq::new(n, |r: int| normal_rhs(ar, c, r, c.gamma@.len() as int))
}

/// `x` are the weighted least squares sills of a curve.
pub open spec fn wls_sills<F: Fn(Op, Double, Double) -> Double>(
    ar: Arithmetic<F>,
    c: LmcCurve,
    n: nat,
    x: Seq<Double>,
) -> bool {
    solution(ar, normal_matrix(ar, c, n), normal_vector(ar, c, n), x)
}

fn normal_entry<F: Fn(Op, Double, Double) -> Double>(
    c: &LmcCurve,
    r: usize,
    k: usize,
    Ghost(n): Ghost<nat>,
    ar: &Arithmetic<F>,
) -> (x: Double)
    requires
        ar.total(),
        c.has(n),
        r < n,
        k < n,
    ensures
        x == normal_cell(*ar, *c, r as int, k as int, c.gamma@.len() as int),
{
    let mut x: Double = Double::zero();
    for i in 0..c.gamma.len()
        invariant
            ar.total(),
            c.has(n),
            r < n,
            k < n,
            x == normal_cell(*ar, *c, r as int, k as int, i as int),
    {
        assert(c.basis@[i as int]@.len() == n);
        x = ar.plus(x, ar.times(ar.times(c.w[i], c.basis[i][r]), c.basis[i][k]));
    }
    x
}

/// Weighted least squares sills of a curve, from the normal equations with a
/// tiny ridge against collinear bases.
fn wls<F: Fn(Op, Double, Double) -> Double>(
    c: &LmcCurve,
    n: usize,
    ar: &Arithmetic<F>,
) -> (r: Result<Vec<Double>, GeostatError>)
    requires
        ar.total(),
        c.has(n as nat),
        holdable(n as nat, n as nat),
    ensures
        match r {
            Ok(x) => wls_sills(*ar, *c, n as nat, x@),
            Err(e) => reports_pivot(*ar, normal_matrix(*ar, *c, n as nat), e),
        },
{
    let ghost lhs = normal_matrix(*ar, *c, n as nat);
    let ghost rhs = normal_vector(*ar, *c, n as nat);
    let mut scale: Double = Double::zero();
    for r in 0..n
        invariant
            ar.total(),
            c.has(n as nat),
            scale == normal_scale(*ar, *c, r as int),
    {
        scale = scale.max(normal_entry(c, r, r, Ghost(n as nat), ar));
    }
    let ridge: Double = ar.times(num(FIT_RIDGE), scale.max(num(LEAST)));
    let mut rows: Vec<Vec<Double>> = Vec::new();
    let mut b: Vec<Double> = Vec::new();
    for r in 0..n
        invariant
            ar.total(),
            c.has(n as nat),
            lhs == normal_matrix(*ar, *c, n as nat),
            rhs == normal_vector(*ar, *c, n as nat),
            ridge == ar.times(num(FIT_RIDGE), normal_scale(*ar, *c, n as int).max(num(LEAST))),
            rows.len() == r,
            b@ =~= rhs.take(r as int),
            forall|j: int| 0 <= j < r ==> (#[trigger] rows@[j])@ == lhs[j],
    {
        let mut row: Vec<Double> = Vec::new();
        for k in 0..n
            invariant
                ar.total(),
                c.has(n as nat),
                r < n,
                lhs == normal_matrix(*ar, *c, n as nat),
                ridge == ar.times(num(FIT_RIDGE), normal_scale(*ar, *c, n as int).max(num(LEAST))),
                row@ =~= lhs[r as int].take(k as int),
        {
            let x: Double = normal_entry(c, r, k, Ghost(n as nat), ar);
            if r == k {
                row.push(ar.plus(x, ridge));
            } else {
                row.push(x);
            }
        }
        assert(row@ =~= lhs[r as int]);
        rows.push(row);
        let mut x: Double = Double::zero();
        for i in 0..c.gamma.len()
            invariant
                ar.total(),
                c.has(n as nat),
                r < n,
                x == normal_rhs(*ar, *c, r as int, i as int),
        {
            assert(c.basis@[i as int]@.len() == n);
            x = ar.plus(x, ar.times(ar.times(c.w[i], c.basis[i][r]), c.gamma[i]));
        }
        b.push(x);
    }
    assert forall|j: int| 0 <= j < n implies (#[trigger] rows@[j]).len() == n by {
        assert(rows@[j]@ == lhs[j]);
    }
    let a: Matrix = Matrix::from_rows(&rows, n);
    assert(a.rows() =~= lhs);
    assert(b@ =~= rhs);
    solve(a, b, ar)
}

/// The nearest positive semi-definite matrix: negative eigenvalues of the
/// symmetric matrix `[[a, b], [b, c]]` become zero.
pub open spec fn projected<F: Fn(Op, Double, Double) -> Double>(
    ar: Arithmetic<F>,
    a: Double,
    b: Double,
    c: Double,
) -> PairSills {
    let tr = ar.plus(a, c);
    let disc = ar.sqrt(
        ar.plus(
            ar.times(ar.minus(a, c), ar.minus(a, c)),
            ar.times(ar.times(num(FOUR), b), b),
        ),
    );
    let l1 = ar.times(num(HALF), ar.plus(tr, disc));
    let l2 = ar.times(num(HALF), ar.minus(tr, disc));
    if num(0).le(l2) {
        PairSills { aa: a, bb: c, ab: b }
    } else {
        let (x, y) = if num(NEXT_TO_ZERO).lt(b.abs()) {
            (ar.minus(l1, c), b)
        } else if c.le(a) {
            (num(ONE), num(0))
        } else {
            (num(0), num(ONE))
        };
        let norm = ar.sqrt(ar.plus(ar.times(x, x), ar.times(y, y))).max(num(LEAST));
        let vx = ar.over(x, norm);
        let vy = ar.over(y, norm);
        let l = l1.max(num(0));
        PairSills {
            aa: ar.times(ar.times(l, vx), vx),
            bb: ar.times(ar.times(l, vy), vy),
            ab: ar.times(ar.times(l, vx), vy),
        }
    }
}

/// Projects the symmetric matrix `[[a, b], [b, c]]` onto the positive
/// semi-definite ones by clipping negative eigenvalues.
pub fn project_psd_2x2<F: Fn(Op, Double, Double) -> Double>(
    a: Double,
    b: Double,
    c: Double,
    ar: &Arithmetic<F>,
) -> (r: PairSills)
    requires
        ar.total(),
    ensures
        r == projected(*ar, a, b, c),
{
    let tr: Double = ar.plus(a, c);
    let disc: Double = ar.sqrt(
        ar.plus(
            ar.times(ar.minus(a, c), ar.minus(a, c)),
            ar.times(ar.times(num(FOUR), b), b),
        ),
    );
    let l1: Double = ar.times(num(HALF), ar.plus(tr, disc));
    let l2: Double = ar.times(num(HALF), ar.minus(tr, disc));
    if Double::zero().le(l2) {
        return PairSills { aa: a, bb: c, ab: b };
    }
    let (x, y): (Double, Double) = if num(NEXT_TO_ZERO).lt(b.abs()) {
        (ar.minus(l1, c), b)
    } else if c.le(a) {
        (num(ONE), Double::zero())
    } else {
        (Double::zero(), num(ONE))
    };
    let norm: Double = ar.sqrt(ar.plus(ar.times(x, x), ar.times(y, y))).max(num(LEAST));
    let vx: Double = ar.over(x, norm);
    let vy: Double = ar.over(y, norm);
    let l: Double = l1.max(Double::zero());
    PairSills {
        aa: ar.times(ar.times(l, vx), vx),
        bb: ar.times(ar.times(l, vy), vy),
        ab: ar.times(ar.times(l, vx), vy),
    }
}

impl PairSills {
    /// Entry for a curve: the first variable's, the second's, the cross one.
    pub open spec fn entry_for(self, pair: int) -> Double {
        if pair == 0 {
            self.aa
        } else if pair == 1 {
            self.bb
        } else {
            self.ab
        }
    }

    /// Entry for a curve.
    fn entry(self, pair: usize) -> (r: Double)
        ensures
            r == self.entry_for(pair as int),
    {
        if pair == 0 {
            self.aa
        } else if pair == 1 {
            self.bb
        } else {
            self.ab
        }
    }
}

/// Entries of all structures for a curve.
pub open spec fn entries_for(sills: Seq<PairSills>, pair: int) -> Seq<Double> {
    Seq::new(sills.len(), |k: int| sills[k].entry_for(pair))
}

/// Projected starting sills.
pub open spec fn starting_sills<F: Fn(Op, Double, Double) -> Double>(
    ar: Arithmetic<F>,
    sa: Seq<Double>,
    sb: Seq<Double>,
    sab: Seq<Double>,
    n: nat,
) -> Seq<PairSills> {
    Seq::new(
        n,
        |k: int| projected(ar, sa[k].max(num(0)), sab[k], sb[k].max(num(0))),
    )
}

/// Squared error of the fit of a curve over its first `m` bins, added to
/// `start`; the cross curve counts twice.
pub open spec fn curve_error<F: Fn(Op, Double, Double) -> Double>(
    ar: Arithmetic<F>,
    c: LmcCurve,
    sills: Seq<PairSills>,
    pair: int,
    m: int,
    start: Double,
) -> Double
    decreases m,
{
    if m <= 0 {
        start
    } else {
        let fit = ar.dot_from(
            num(MINUS_ZERO),
            entries_for(sills, pair),
            c.basis@[m - 1]@,
            sills.len() as int,
        );
        let miss = ar.minus(c.gamma@[m - 1], fit);
        let mult = if pair == 2 {
            num(TWO)
        } else {
            num(ONE)
        };
        ar.plus(
            curve_error(ar, c, sills, pair, m - 1, start),
            ar.times(ar.times(ar.times(mult, c.w@[m - 1]), miss), miss),
        )
    }
}

/// The curves of the first variable, the second and the pair.
#[derive(Debug)]
pub struct Curves {
    /// First variable.
    pub a: LmcCurve,
    /// Second variable.
    pub b: LmcCurve,
    /// Cross curve.
    pub ab: LmcCurve,
}

/// Weighted squared error of sills over the three curves.
pub open spec fn weighted_error<F: Fn(Op, Double, Double) -> Double>(
    ar: Arithmetic<F>,
    cs: Curves,
    sills: Seq<PairSills>,
) -> Double {
    let ea = curve_error(ar, cs.a, sills, 0, cs.a.gamma@.len() as int, num(0));
    let eb = curve_error(ar, cs.b, sills, 1, cs.b.gamma@.len() as int, ea);
    curve_error(ar, cs.ab, sills, 2, cs.ab.gamma@.len() as int, eb)
}

/// Fitted value at a bin without structure `k`, from the first `n` structures.
pub open spec fn fit_without<F: Fn(Op, Double, Double) -> Double>(
    ar: Arithmetic<F>,
    entries: Seq<Double>,
    row: Seq<Double>,
    k: int,
    n: int,
) -> Double
    decreases n,
{
    if n <= 0 {
        num(MINUS_ZERO)
    } else {
        let before = fit_without(ar, entries, row, k, n - 1);
        if n - 1 == k {
            before
        } else {
            ar.plus(before, ar.times(entries[n - 1], row[n - 1]))
        }
    }
}

/// Numerator of the least squares sill of structure `k` given the others, over
/// the first `m` bins.
pub open spec fn refit_num<F: Fn(Op, Double, Double) -> Double>(
    ar: Arithmetic<F>,
    c: LmcCurve,
    sills: Seq<PairSills>,
    pair: int,
    k: int,
    m: int,
) -> Double
    decreases m,
{
    if m <= 0 {
        num(0)
    } else {
        ar.plus(
            refit_num(ar, c, sills, pair, k, m - 1),
            ar.times(
                ar.times(c.w@[m - 1], c.basis@[m - 1]@[k]),
                ar.minus(
                    c.gamma@[m - 1],
                    fit_without(
                        ar,
                        entries_for(sills, pair),
                        c.basis@[m - 1]@,
                        k,
                        sills.len() as int,
                    ),
                ),
            ),
        )
    }
}

/// Least squares sill of structure `k` on a curve, given the others: zero where
/// the structure does not show in the curve.
pub open spec fn refit<F: Fn(Op, Double, Double) -> Double>(
    ar: Arithmetic<F>,
    c: LmcCurve,
    sills: Seq<PairSills>,
    pair: int,
    k: int,
) -> Double {
    let den = normal_cell(ar, c, k, k, c.gamma@.len() as int);
    if den.is_positive() {
        ar.over(refit_num(ar, c, sills, pair, k, c.gamma@.len() as int), den)
    } else {
        num(0)
    }
}

/// Structure `k` solved anew given the others, and projected.
pub open spec fn resolved<F: Fn(Op, Double, Double) -> Double>(
    ar: Arithmetic<F>,
    cs: Curves,
    sills: Seq<PairSills>,
    k: int,
) -> PairSills {
    projected(
        ar,
        refit(ar, cs.a, sills, 0, k).max(num(0)),
        refit(ar, cs.ab, sills, 2, k),
        refit(ar, cs.b, sills, 1, k).max(num(0)),
    )
}

/// The sills after the first `k` structures were solved anew in turn.
pub open spec fn swept<F: Fn(Op, Double, Double) -> Double>(
    ar: Arithmetic<F>,
    cs: Curves,
    sills: Seq<PairSills>,
    k: int,
) -> Seq<PairSills>
    decreases k,
{
    if k <= 0 {
        sills
    } else {
        let before = swept(ar, cs, sills, k - 1);
        before.update(k - 1, resolved(ar, cs, before, k - 1))
    }
}

/// What at most `n` sweeps make of sills whose error is `best`: a sweep that
/// makes the error greater is undone and ends the descent, and so does one that
/// hardly makes it smaller.
pub open spec fn descended<F: Fn(Op, Double, Double) -> Double>(
    ar: Arithmetic<F>,
    cs: Curves,
    sills: Seq<PairSills>,
    best: Double,
    n: nat,
) -> Seq<PairSills>
    decreases n,
{
    if n == 0 {
        sills
    } else {
        let next = swept(ar, cs, sills, sills.len() as int);
        let current = weighted_error(ar, cs, next);
        if best.lt(current) {
            sills
        } else if settled(ar, best, current) {
            next
        } else {
            descended(ar, cs, next, current, (n - 1) as nat)
        }
    }
}

/// The error hardly went down.
pub open spec fn settled<F: Fn(Op, Double, Double) -> Double>(
    ar: Arithmetic<F>,
    best: Double,
    current: Double,
) -> bool {
    ar.minus(best, current).le(ar.times(num(SETTLED), best.max(num(NEXT_TO_ZERO))))
}

/// The sills after `k` whole sweeps, none of them undone.
pub open spec fn after_sweeps<F: Fn(Op, Double, Double) -> Double>(
    ar: Arithmetic<F>,
    cs: Curves,
    sills: Seq<PairSills>,
    k: nat,
) -> Seq<PairSills>
    decreases k,
{
    if k == 0 {
        sills
    } else {
        after_sweeps(ar, cs, swept(ar, cs, sills, sills.len() as int), (k - 1) as nat)
    }
}

/// The descent never makes the weighted error greater, as long as the errors
/// it compares are numbers.
pub proof fn descent_never_worsens<F: Fn(Op, Double, Double) -> Double>(
    ar: Arithmetic<F>,
    cs: Curves,
    sills: Seq<PairSills>,
    n: nat,
)
    requires
        forall|k: nat|
            k <= n ==> !weighted_error(ar, cs, #[trigger] after_sweeps(ar, cs, sills, k)).nan(),
    ensures
        weighted_error(
            ar,
            cs,
            descended(ar, cs, sills, weighted_error(ar, cs, sills), n),
        ).at_most(weighted_error(ar, cs, sills)),
    decreases n,
{
    assert(after_sweeps(ar, cs, sills, 0) == sills);
    if n > 0 {
        let best = weighted_error(ar, cs, sills);
        let next = swept(ar, cs, sills, sills.len() as int);
        let current = weighted_error(ar, cs, next);
        assert(after_sweeps(ar, cs, next, 0) == next);
        assert(after_sweeps(ar, cs, sills, 1) == after_sweeps(ar, cs, next, 0));
        if !best.below(current) && !settled(ar, best, current) {
            assert forall|k: nat| k <= n - 1 implies !weighted_error(
                ar,
                cs,
                #[trigger] after_sweeps(ar, cs, next, k),
            ).nan() by {
                assert(after_sweeps(ar, cs, sills, k + 1) == after_sweeps(ar, cs, next, k));
            }
            descent_never_worsens(ar, cs, next, (n - 1) as nat);
        }
    }
}

fn add_curve_error<F: Fn(Op, Double, Double) -> Double>(
    c: &LmcCurve,
    sills: &Vec<PairSills>,
    pair: usize,
    start: Double,
    ar: &Arithmetic<F>,
) -> (r: Double)
    requires
        ar.total(),
        c.has(sills@.len()),
    ensures
        r == curve_error(*ar, *c, sills@, pair as int, c.gamma@.len() as int, start),
{
    let entries: Vec<Double> = list_entries(sills, pair);
    let mult: Double = if pair == 2 {
        num(TWO)
    } else {
        num(ONE)
    };
    let mut total: Double = start;
    for i in 0..c.gamma.len()
        invariant
            ar.total(),
            c.has(sills@.len()),
            entries@ == entries_for(sills@, pair as int),
            mult == (if pair == 2 {
                num(TWO)
            } else {
                num(ONE)
            }),
            total == curve_error(*ar, *c, sills@, pair as int, i as int, start),
    {
        assert(c.basis@[i as int]@.len() == sills@.len());
        let fit: Double = ar.dot(num(MINUS_ZERO), &entries, &c.basis[i], sills.len());
        let miss: Double = ar.minus(c.gamma[i], fit);
        total = ar.plus(total, ar.times(ar.times(ar.times(mult, c.w[i]), miss), miss));
    }
    total
}

fn list_entries(sills: &Vec<PairSills>, pair: usize) -> (r: Vec<Double>)
    ensures
        r@ == entries_for(sills@, pair as int),
{
    let mut r: Vec<Double> = Vec::new();
    for k in 0..sills.len()
        invariant
            r@ =~= entries_for(sills@, pair as int).take(k as int),
    {
        r.push(sills[k].entry(pair));
    }
    assert(r@ =~= entries_for(sills@, pair as int));
    r
}

impl Curves {
    /// Every curve has `n` basis functions.
    pub open spec fn have(&self, n: nat) -> bool {
        self.a.has(n) && self.b.has(n) && self.ab.has(n)
    }

    fn error<F: Fn(Op, Double, Double) -> Double>(
        &self,
        sills: &Vec<PairSills>,
        ar: &Arithmetic<F>,
    ) -> (r: Double)
        requires
            ar.total(),
            self.have(sills@.len()),
        ensures
            r == weighted_error(*ar, *self, sills@),
    {
        let ea: Double = add_curve_error(&self.a, sills, 0, Double::zero(), ar);
        let eb: Double = add_curve_error(&self.b, sills, 1, ea, ar);
        add_curve_error(&self.ab, sills, 2, eb, ar)
    }

    fn resolve<F: Fn(Op, Double, Double) -> Double>(
        &self,
        sills: &Vec<PairSills>,
        k: usize,
        ar: &Arithmetic<F>,
    ) -> (r: PairSills)
        requires
            ar.total(),
            self.have(sills@.len()),
            k < sills.len(),
        ensures
            r == resolved(*ar, *self, sills@, k as int),
    {
        let a: Double = find_refit(&self.a, sills, 0, k, ar);
        let b: Double = find_refit(&self.b, sills, 1, k, ar);
        let ab: Double = find_refit(&self.ab, sills, 2, k, ar);
        project_psd_2x2(a.max(Double::zero()), ab, b.max(Double::zero()), ar)
    }

    /// One sweep over the structures.
    fn sweep<F: Fn(Op, Double, Double) -> Double>(
        &self,
        sills: &Vec<PairSills>,
        ar: &Arithmetic<F>,
    ) -> (next: Vec<PairSills>)
        requires
            ar.total(),
            self.have(sills@.len()),
        ensures
            next@ == swept(*ar, *self, sills@, sills@.len() as int),
            next@.len() == sills@.len(),
    {
        let mut next: Vec<PairSills> = Vec::new();
        for k in 0..sills.len()
            invariant
                next@ =~= sills@.take(k as int),
        {
            next.push(sills[k]);
        }
        assert(next@ =~= sills@);
        for k in 0..sills.len()
            invariant
                ar.total(),
                self.have(sills@.len()),
                next@.len() == sills@.len(),
                next@ == swept(*ar, *self, sills@, k as int),
        {
            let s: PairSills = self.resolve(&next, k, ar);
            next.set(k, s);
        }
        next
    }

    /// Coordinate descent: sweeps while the error goes down.
    fn descend<F: Fn(Op, Double, Double) -> Double>(
        &self,
        start: Vec<PairSills>,
        ar: &Arithmetic<F>,
    ) -> (r: Vec<PairSills>)
        requires
            ar.total(),
            self.have(start@.len()),
        ensures
            r@ == descended(
                *ar,
                *self,
                start@,
                weighted_error(*ar, *self, start@),
                SWEEPS as nat,
            ),
            r@.len() == start@.len(),
    {
        let ghost begun = start@;
        let ghost want = descended(
            *ar,
            *self,
            begun,
            weighted_error(*ar, *self, begun),
            SWEEPS as nat,
        );
        let mut best: Double = self.error(&start, ar);
        let mut sills: Vec<PairSills> = start;
        let mut n: usize = SWEEPS;
        while n > 0
            invariant
                ar.total(),
                self.have(sills@.len()),
                sills@.len() == begun.len(),
                begun == start@,
                want == descended(
                    *ar,
                    *self,
                    begun,
                    weighted_error(*ar, *self, begun),
                    SWEEPS as nat,
                ),
                want == descended(*ar, *self, sills@, best, n as nat),
            decreases n,
        {
            let next: Vec<PairSills> = self.sweep(&sills, ar);
            let current: Double = self.error(&next, ar);
            if best.lt(current) {
                return sills;
            }
            if ar.minus(best, current).le(
                ar.times(num(SETTLED), best.max(num(NEXT_TO_ZERO))),
            ) {
                return next;
            }
            sills = next;
            best = current;
            n = n - 1;
        }
        sills
    }
}

fn find_refit<F: Fn(Op, Double, Double) -> Double>(
    c: &LmcCurve,
    sills: &Vec<PairSills>,
    pair: usize,
    k: usize,
    ar: &Arithmetic<F>,
) -> (r: Double)
    requires
        ar.total(),
        c.has(sills@.len()),
        k < sills.len(),
    ensures
        r == refit(*ar, *c, sills@, pair as int, k as int),
{
    let entries: Vec<Double> = list_entries(sills, pair);
    let den: Double = normal_entry(c, k, k, Ghost(sills@.len()), ar);
    if !den.is_positive() {
        return Double::zero();
    }
    let mut top: Double = Double::zero();
    for i in 0..c.gamma.len()
        invariant
            ar.total(),
            c.has(sills@.len()),
            k < sills.len(),
            entries@ == entries_for(sills@, pair as int),
            top == refit_num(*ar, *c, sills@, pair as int, k as int, i as int),
    {
        assert(c.basis@[i as int]@.len() == sills@.len());
        let mut others: Double = num(MINUS_ZERO);
        for j in 0..sills.len()
            invariant
                ar.total(),
                i < c.basis.len(),
                c.basis@[i as int]@.len() == sills@.len(),
                entries@.len() == sills@.len(),
                others == fit_without(*ar, entries@, c.basis@[i as int]@, k as int, j as int),
        {
            if j != k {
                others = ar.plus(others, ar.times(entries[j], c.basis[i][j]));
            }
        }
        top = ar.plus(
            top,
            ar.times(ar.times(c.w[i], c.basis[i][k]), ar.minus(c.gamma[i], others)),
        );
    }
    ar.over(top, den)
}

/// No structure of the template is anisotropic.
pub open spec fn isotropic<const D: usize, S, G>(template: Seq<TemplateStructure<D, S, G>>) -> bool {
    forall|s: int| 0 <= s < template.len() ==> (#[trigger] template[s]).anis is None
}

/// Text that refuses an anisotropic template.
pub open spec fn anisotropic_text() -> Seq<char> {
    "fit_lmc requires an isotropic template: sills are fitted to omnidirectional curves and cannot be reused anisotropically (fit directional models separately or supply the LMC explicitly)"@
}

/// The matrix of a pair's sills.
pub open spec fn pair_matrix(s: PairSills) -> Seq<Seq<Double>> {
    seq![seq![s.aa, s.ab], seq![s.ab, s.bb]]
}

/// `nugget` and `structures` hold the fitted sills and the template's shapes.
pub open spec fn assembled<const D: usize, S, G>(
    template: Seq<TemplateStructure<D, S, G>>,
    sills: Seq<PairSills>,
    nugget: Seq<Vec<Double>>,
    structures: Seq<LmcStructure<D, G>>,
) -> bool {
    &&& crate::lmc::grid_of(nugget) == pair_matrix(sills[0])
    &&& structures.len() == template.len()
    &&& forall|s: int|
        0 <= s < structures.len() ==> {
            &&& (#[trigger] structures[s]).shape == template[s].shape
            &&& structures[s].range == template[s].range
            &&& structures[s].anis is None
            &&& crate::lmc::grid_of(structures[s].sills@) == pair_matrix(sills[s + 1])
        }
}

/// What the fit of prepared curves gives.
pub open spec fn curves_fitted<const D: usize, S, G, F: Fn(Op, Double, Double) -> Double>(
    ar: Arithmetic<F>,
    cs: Curves,
    template: Seq<TemplateStructure<D, S, G>>,
    r: Result<Lmc<D, G>, GeostatError>,
) -> bool {
    let n = 1 + template.len();
    if !regular(ar, normal_matrix(ar, cs.a, n)) {
        r matches Err(e) && reports_pivot(ar, normal_matrix(ar, cs.a, n), e)
    } else if !regular(ar, normal_matrix(ar, cs.b, n)) {
        r matches Err(e) && reports_pivot(ar, normal_matrix(ar, cs.b, n), e)
    } else if !regular(ar, normal_matrix(ar, cs.ab, n)) {
        r matches Err(e) && reports_pivot(ar, normal_matrix(ar, cs.ab, n), e)
    } else {
        exists|sa: Seq<Double>, sb: Seq<Double>, sab: Seq<Double>|
            #![trigger wls_sills(ar, cs.a, n, sa), wls_sills(ar, cs.b, n, sb), wls_sills(ar, cs.ab, n, sab)]
            wls_sills(ar, cs.a, n, sa) && wls_sills(ar, cs.b, n, sb) && wls_sills(
                ar,
                cs.ab,
                n,
                sab,
            ) && sills_fitted(ar, cs, template, starting_sills(ar, sa, sb, sab, n), r)
    }
}

/// What descent from these sills gives.
pub open spec fn sills_fitted<const D: usize, S, G, F: Fn(Op, Double, Double) -> Double>(
    ar: Arithmetic<F>,
    cs: Curves,
    template: Seq<TemplateStructure<D, S, G>>,
    start: Seq<PairSills>,
    r: Result<Lmc<D, G>, GeostatError>,
) -> bool {
    exists|nugget: Seq<Vec<Double>>, structures: Seq<LmcStructure<D, G>>| #[trigger]
        lmc_outcome(ar, nugget, structures, r) && assembled(
            template,
            descended(ar, cs, start, weighted_error(ar, cs, start), SWEEPS as nat),
            nugget,
            structures,
        )
}

/// What a fit gives.
pub open spec fn fit_outcome<const D: usize, S: Fn(Double) -> Double, G, F: Fn(Op, Double, Double) -> Double>(
    ar: Arithmetic<F>,
    direct_a: Seq<VariogramBin>,
    direct_b: Seq<VariogramBin>,
    cross_ab: Seq<VariogramBin>,
    template: Seq<TemplateStructure<D, S, G>>,
    r: Result<Lmc<D, G>, GeostatError>,
) -> bool {
    let least = template.len() + 2;
    if !isotropic(template) {
        r matches Err(e) && invalid(e, anisotropic_text())
    } else if usable_bins(direct_a).len() < least || usable_bins(direct_b).len() < least
        || usable_bins(cross_ab).len() < least {
        r matches Err(e) && insufficient(e, few_bins_text(1 + template.len()))
    } else {
        exists|cs: Curves| #[trigger]
            curves_fitted(ar, cs, template, r) && cs.a.prepared(
                ar,
                template,
                usable_bins(direct_a),
            ) && cs.b.prepared(ar, template, usable_bins(direct_b)) && cs.ab.prepared(
                ar,
                template,
                usable_bins(cross_ab),
            )
    }
}

fn matrix_of(s: PairSills) -> (m: Vec<Vec<Double>>)
    ensures
        crate::lmc::grid_of(m@) == pair_matrix(s),
{
    let mut first: Vec<Double> = Vec::new();
    first.push(s.aa);
    first.push(s.ab);
    let mut second: Vec<Double> = Vec::new();
    second.push(s.ab);
    second.push(s.bb);
    assert(first@ =~= seq![s.aa, s.ab]);
    assert(second@ =~= seq![s.ab, s.bb]);
    let mut m: Vec<Vec<Double>> = Vec::new();
    m.push(first);
    m.push(second);
    assert(crate::lmc::grid_of(m@) =~= pair_matrix(s));
    m
}

/// Assembles the model from fitted sills.
fn assemble<const D: usize, S, G, F: Fn(Op, Double, Double) -> Double>(
    template: Vec<TemplateStructure<D, S, G>>,
    sills: &Vec<PairSills>,
    ar: &Arithmetic<F>,
) -> (out: (Vec<Vec<Double>>, Vec<LmcStructure<D, G>>))
    requires
        ar.total(),
        sills@.len() == 1 + template@.len(),
    ensures
        assembled(template@, sills@, out.0@, out.1@),
{
    let nugget: Vec<Vec<Double>> = matrix_of(sills[0]);
    let ghost all = template@;
    let mut rest: Vec<TemplateStructure<D, S, G>> = template;
    let mut reversed: Vec<LmcStructure<D, G>> = Vec::new();
    while rest.len() > 0
        invariant
            all == template@,
            sills@.len() == 1 + all.len(),
            rest@.len() <= all.len(),
            rest@ =~= all.take(rest@.len() as int),
            reversed@.len() + rest@.len() == all.len(),
            forall|k: int|
                0 <= k < reversed@.len() ==> {
                    let s = all.len() - 1 - k;
                    &&& (#[trigger] reversed@[k]).shape == all[s].shape
                    &&& reversed@[k].range == all[s].range
                    &&& reversed@[k].anis is None
                    &&& crate::lmc::grid_of(reversed@[k].sills@) == pair_matrix(sills@[s + 1])
                },
        decreases rest.len(),
    {
        let s: usize = rest.len() - 1;
        let st: TemplateStructure<D, S, G> = rest.pop().unwrap();
        assert(st == all[s as int]);
        reversed.push(
            LmcStructure {
                shape: st.shape,
                range: st.range,
                anis: None,
                sills: matrix_of(sills[s + 1]),
            },
        );
    }
    let ghost back = reversed@;
    let mut structures: Vec<LmcStructure<D, G>> = Vec::new();
    while reversed.len() > 0
        invariant
            back.len() == all.len(),
            reversed@.len() <= back.len(),
            reversed@ =~= back.take(reversed@.len() as int),
            structures@.len() + reversed@.len() == back.len(),
            forall|k: int|
                0 <= k < structures@.len() ==> #[trigger] structures@[k] == back[back.len() - 1 - k],
        decreases reversed.len(),
    {
        let k: usize = reversed.len() - 1;
        let st: LmcStructure<D, G> = reversed.pop().unwrap();
        assert(st == back[k as int]);
        structures.push(st);
    }
    (nugget, structures)
}

/// Fits a two-variable model of coregionalization to the direct curves of both
/// variables and their cross curve.
///
/// The shapes come from the template. Starting from weighted least squares per
/// curve, the descent solves one structure's sills after the other given the
/// rest and projects them onto the positive semi-definite matrices, until the
/// weighted error stops improving. The template must be isotropic, since the
/// curves are omnidirectional.
pub fn fit_lmc<const D: usize, S: Fn(Double) -> Double, G, F: Fn(Op, Double, Double) -> Double>(
    direct_a: &Vec<VariogramBin>,
    direct_b: &Vec<VariogramBin>,
    cross_ab: &Vec<VariogramBin>,
    template: Vec<TemplateStructure<D, S, G>>,
    ar: &Arithmetic<F>,
) -> (r: Result<Lmc<D, G>, GeostatError>)
    requires
        ar.total(),
        template_total(template@),
        template@.len() < usize::MAX - 1,
        holdable(1 + template@.len(), 1 + template@.len()),
        countable_bins(direct_a@),
        countable_bins(direct_b@),
        countable_bins(cross_ab@),
    ensures
        fit_outcome(*ar, direct_a@, direct_b@, cross_ab@, template@, r),
        r matches Ok(lmc) ==> lmc.well_formed(),
{
    for s in 0..template.len()
        invariant
            forall|i: int| 0 <= i < s ==> (#[trigger] template@[i]).anis is None,
    {
        if template[s].anis.is_some() {
            assert(template@[s as int].anis is Some);
            return Err(
                invalid_parameter(
                    "fit_lmc requires an isotropic template: sills are fitted to omnidirectional curves and cannot be reused anisotropically (fit directional models separately or supply the LMC explicitly)",
                ),
            );
        }
    }
    let n: usize = 1 + template.len();
    let a: LmcCurve = match prepare(direct_a, &template, ar) {
        Err(e) => {
            return Err(e);
        },
        Ok(c) => c,
    };
    let b: LmcCurve = match prepare(direct_b, &template, ar) {
        Err(e) => {
            return Err(e);
        },
        Ok(c) => c,
    };
    let ab: LmcCurve = match prepare(cross_ab, &template, ar) {
        Err(e) => {
            return Err(e);
        },
        Ok(c) => c,
    };
    let cs: Curves = Curves { a, b, ab };
    let r: Result<Lmc<D, G>, GeostatError> = fit_curves(&cs, n, template, ar);
    assert(curves_fitted(*ar, cs, template@, r));
    r
}

/// Fits prepared curves.
fn fit_curves<const D: usize, S, G, F: Fn(Op, Double, Double) -> Double>(
    cs: &Curves,
    n: usize,
    template: Vec<TemplateStructure<D, S, G>>,
    ar: &Arithmetic<F>,
) -> (r: Result<Lmc<D, G>, GeostatError>)
    requires
        ar.total(),
        n == 1 + template@.len(),
        holdable(n as nat, n as nat),
        cs.have(n as nat),
    ensures
        curves_fitted(*ar, *cs, template@, r),
        r matches Ok(lmc) ==> lmc.well_formed(),
{
    let sa: Vec<Double> = match wls(&cs.a, n, ar) {
        Err(e) => {
            proof {
                lemma_reported_is_singular(*ar, normal_matrix(*ar, cs.a, n as nat), e);
            }
            return Err(e);
        },
        Ok(x) => x,
    };
    let sb: Vec<Double> = match wls(&cs.b, n, ar) {
        Err(e) => {
            proof {
                lemma_reported_is_singular(*ar, normal_matrix(*ar, cs.b, n as nat), e);
            }
            return Err(e);
        },
        Ok(x) => x,
    };
    let sab: Vec<Double> = match wls(&cs.ab, n, ar) {
        Err(e) => {
            proof {
                lemma_reported_is_singular(*ar, normal_matrix(*ar, cs.ab, n as nat), e);
            }
            return Err(e);
        },
        Ok(x) => x,
    };
    assert(wls_sills(*ar, cs.a, n as nat, sa@));
    assert(wls_sills(*ar, cs.b, n as nat, sb@));
    assert(wls_sills(*ar, cs.ab, n as nat, sab@));
    let ghost begun = starting_sills(*ar, sa@, sb@, sab@, n as nat);
    let mut start: Vec<PairSills> = Vec::new();
    for k in 0..n
        invariant
            ar.total(),
            sa@.len() == n,
            sb@.len() == n,
            sab@.len() == n,
            begun == starting_sills(*ar, sa@, sb@, sab@, n as nat),
            start@ =~= begun.take(k as int),
    {
        start.push(
            project_psd_2x2(sa[k].max(Double::zero()), sab[k], sb[k].max(Double::zero()), ar),
        );
    }
    assert(start@ =~= begun);
    let sills: Vec<PairSills> = cs.descend(start, ar);
    let (nugget, structures): (Vec<Vec<Double>>, Vec<LmcStructure<D, G>>) = assemble(
        template,
        &sills,
        ar,
    );
    let r: Result<Lmc<D, G>, GeostatError> = Lmc::new(nugget, structures, ar);
    assert(lmc_outcome(*ar, nugget@, structures@, r));
    assert(sills_fitted(*ar, *cs, template@, begun, r));
    r
}

/// Points are at the same place, taking the two zeros for one.
pub open spec fn coincide<const D: usize, F: Fn(Op, Double, Double) -> Double>(
    ar: Arithmetic<F>,
    p: [Double; D],
    q: [Double; D],
) -> bool {
    forall|d: int|
        0 <= d < D ==> ar.plus(#[trigger] p@[d], num(0)) == ar.plus(q@[d], num(0))
}

/// Point `j` is the last one at place `p`.
pub open spec fn last_at<const D: usize, F: Fn(Op, Double, Double) -> Double>(
    ar: Arithmetic<F>,
    places: Seq<[Double; D]>,
    p: [Double; D],
    j: int,
) -> bool {
    &&& 0 <= j < places.len()
    &&& coincide(ar, p, places[j])
    &&& forall|i: int| j < i < places.len() ==> !coincide(ar, p, #[trigger] places[i])
}

/// There is a point at place `p`.
pub open spec fn occupied<const D: usize, F: Fn(Op, Double, Double) -> Double>(
    ar: Arithmetic<F>,
    places: Seq<[Double; D]>,
    p: [Double; D],
) -> bool {
    exists|j: int| #[trigger] last_at(ar, places, p, j)
}

/// The primary points at whose place there is a secondary one, in order.
pub open spec fn shared<const D: usize, F: Fn(Op, Double, Double) -> Double>(
    ar: Arithmetic<F>,
    primary: Seq<[Double; D]>,
    secondary: Seq<[Double; D]>,
) -> Seq<int>
    decreases primary.len(),
{
    if primary.len() == 0 {
        Seq::empty()
    } else {
        let before = shared(ar, primary.drop_last(), secondary);
        if occupied(ar, secondary, primary.last()) {
            before.push(primary.len() - 1)
        } else {
            before
        }
    }
}

/// Value of the last point at place `p`.
pub open spec fn value_there<const D: usize, F: Fn(Op, Double, Double) -> Double>(
    ar: Arithmetic<F>,
    places: Seq<[Double; D]>,
    values: Seq<Double>,
    p: [Double; D],
) -> Double {
    values[choose|j: int| last_at(ar, places, p, j)]
}

/// The shared points, with the values of both variables.
pub open spec fn is_collocated<const D: usize, F: Fn(Op, Double, Double) -> Double>(
    ar: Arithmetic<F>,
    primary: &PointSet<D>,
    secondary: &PointSet<D>,
    coords: Seq<[Double; D]>,
    pv: Seq<Double>,
    sv: Seq<Double>,
) -> bool {
    let at = shared(ar, primary.places(), secondary.places());
    &&& coords == Seq::new(at.len(), |i: int| primary.places()[at[i]])
    &&& pv == Seq::new(at.len(), |i: int| primary.attributes()[at[i]])
    &&& sv == Seq::new(
        at.len(),
        |i: int|
            value_there(
                ar,
                secondary.places(),
                secondary.attributes(),
                primary.places()[at[i]],
            ),
    )
}

proof fn lemma_last_is_one<const D: usize, F: Fn(Op, Double, Double) -> Double>(
    ar: Arithmetic<F>,
    places: Seq<[Double; D]>,
    p: [Double; D],
    i: int,
    j: int,
)
    requires
        last_at(ar, places, p, i),
        last_at(ar, places, p, j),
    ensures
        i == j,
{
    if i < j {
        assert(!coincide(ar, p, places[j]));
    }
    if j < i {
        assert(!coincide(ar, p, places[i]));
    }
}

/// Positions of shared points lie within the list.
proof fn lemma_shared<const D: usize, F: Fn(Op, Double, Double) -> Double>(
    ar: Arithmetic<F>,
    primary: Seq<[Double; D]>,
    secondary: Seq<[Double; D]>,
)
    ensures
        shared(ar, primary, secondary).len() <= primary.len(),
        forall|i: int|
            0 <= i < shared(ar, primary, secondary).len() ==> 0 <= #[trigger] shared(
                ar,
                primary,
                secondary,
            )[i] < primary.len(),
    decreases primary.len(),
{
    if primary.len() > 0 {
        lemma_shared(ar, primary.drop_last(), secondary);
    }
}

/// Last point at place `p`.
fn find_last<const D: usize, F: Fn(Op, Double, Double) -> Double>(
    coords: &Vec<[Double; D]>,
    p: [Double; D],
    ar: &Arithmetic<F>,
) -> (r:
    Option<usize>)
    requires
        ar.total(),
    ensures
        match r {
            Some(j) => last_at(*ar, coords@, p, j as int),
            None => !occupied(*ar, coords@, p),
        },
{
    let mut j: usize = coords.len();
    while j > 0
        invariant
            ar.total(),
            j <= coords.len(),
            forall|i: int| j <= i < coords.len() ==> !coincide(*ar, p, #[trigger] coords@[i]),
        decreases j,
    {
        j = j - 1;
        let q: [Double; D] = coords[j];
        let mut same: bool = true;
        for d in 0..D
            invariant
                ar.total(),
                same <==> forall|i: int|
                    0 <= i < d ==> ar.plus(#[trigger] p@[i], num(0)) == ar.plus(q@[i], num(0)),
        {
            let x: Double = ar.plus(p[d], Double::zero());
            let y: Double = ar.plus(q[d], Double::zero());
            if x.bits != y.bits {
                assert(ar.plus(p@[d as int], num(0)) != ar.plus(q@[d as int], num(0)));
                same = false;
            } else {
                assert(x == y);
            }
        }
        if same {
            assert(last_at(*ar, coords@, p, j as int));
            return Some(j);
        }
    }
    None
}

/// The points that two sets share, matched on exact coordinates: places, values
/// of the primary and values of the secondary variable.
pub fn collocated_points<const D: usize, F: Fn(Op, Double, Double) -> Double>(
    primary: &PointSet<D>,
    secondary: &PointSet<D>,
    ar: &Arithmetic<F>,
) -> (out: (Vec<[Double; D]>, Vec<Double>, Vec<Double>))
    requires
        ar.total(),
        primary.well_formed(),
        secondary.well_formed(),
    ensures
        is_collocated(*ar, primary, secondary, out.0@, out.1@, out.2@),
{
    let ghost ps = primary.places();
    let ghost ss = secondary.places();
    let mut coords: Vec<[Double; D]> = Vec::new();
    let mut pv: Vec<Double> = Vec::new();
    let mut sv: Vec<Double> = Vec::new();
    let n: usize = primary.len();
    for i in 0..n
        invariant
            ar.total(),
            n == primary.places().len(),
            primary.well_formed(),
            secondary.well_formed(),
            ps == primary.places(),
            ss == secondary.places(),
            ({
                let at = shared(*ar, ps.take(i as int), ss);
                &&& coords@ =~= Seq::new(at.len(), |k: int| ps[at[k]])
                &&& pv@ =~= Seq::new(at.len(), |k: int| primary.attributes()[at[k]])
                &&& sv@ =~= Seq::new(
                    at.len(),
                    |k: int| value_there(*ar, ss, secondary.attributes(), ps[at[k]]),
                )
            }),
    {
        assert(ps.take(i + 1).drop_last() =~= ps.take(i as int));
        assert(ps.take(i + 1).last() == ps[i as int]);
        let p: [Double; D] = primary.coord(i);
        match find_last(secondary.coords(), p, ar) {
            None => {},
            Some(j) => {
                proof {
                    let c = choose|c: int| last_at(*ar, ss, p, c);
                    lemma_last_is_one(*ar, ss, p, c, j as int);
                }
                coords.push(p);
                pv.push(primary.value(i));
                sv.push(secondary.value(j));
            },
        }
    }
    assert(ps.take(ps.len() as int) =~= ps);
    (coords, pv, sv)
}

/// Too few shared points.
pub open spec fn few_shared_text(n: nat, n_lags: nat) -> Seq<char> {
    digits(n) + " collocated primary/secondary points for "@ + digits(n_lags)
        + " lags: too few to fit the cross-variogram"@
}

/// What a fit to the shared points gives; `cross` computes the cross curve.
pub open spec fn collocated_outcome<
    const D: usize,
    S: Fn(Double) -> Double,
    G,
    X: Fn(&PointSet<D>, &PointSet<D>) -> Result<Vec<VariogramBin>, GeostatError>,
    F: Fn(Op, Double, Double) -> Double,
>(
    ar: Arithmetic<F>,
    primary: &PointSet<D>,
    secondary: &PointSet<D>,
    n_lags: usize,
    direct_a: Seq<VariogramBin>,
    direct_b: Seq<VariogramBin>,
    cross: X,
    template: Seq<TemplateStructure<D, S, G>>,
    r: Result<Lmc<D, G>, GeostatError>,
) -> bool {
    let n = shared(ar, primary.places(), secondary.places()).len();
    if n < n_lags {
        r matches Err(e) && insufficient(e, few_shared_text(n, n_lags as nat))
    } else if n == 0 {
        r matches Err(e) && insufficient(e, "no points provided"@)
    } else {
        exists|p: PointSet<D>, s: PointSet<D>, c: Result<Vec<VariogramBin>, GeostatError>|
            #![trigger call_ensures(cross, (&p, &s), c)]
            is_collocated(ar, primary, secondary, p.places(), p.attributes(), s.attributes())
                && s.places() == p.places() && call_ensures(cross, (&p, &s), c) && match c {
                Err(e) => r == Err::<Lmc<D, G>, GeostatError>(e),
                Ok(bins) => fit_outcome(ar, direct_a, direct_b, bins@, template, r),
            }
    }
}

/// Fits a two-variable model of coregionalization to the direct curves of both
/// variables and to the cross curve of the points they share, matched on exact
/// coordinates. `cross` computes that curve.
pub fn fit_lmc_collocated<
    const D: usize,
    S: Fn(Double) -> Double,
    G,
    X: Fn(&PointSet<D>, &PointSet<D>) -> Result<Vec<VariogramBin>, GeostatError>,
    F: Fn(Op, Double, Double) -> Double,
>(
    primary: &PointSet<D>,
    secondary: &PointSet<D>,
    n_lags: usize,
    direct_a: &Vec<VariogramBin>,
    direct_b: &Vec<VariogramBin>,
    cross: X,
    template: Vec<TemplateStructure<D, S, G>>,
    ar: &Arithmetic<F>,
) -> (r: Result<Lmc<D, G>, GeostatError>)
    requires
        ar.total(),
        primary.well_formed(),
        secondary.well_formed(),
        forall|p: &PointSet<D>, s: &PointSet<D>|
            p.well_formed() && s.well_formed() ==> #[trigger] call_requires(cross, (p, s)),
        forall|p: &PointSet<D>, s: &PointSet<D>, c: Result<Vec<VariogramBin>, GeostatError>|
            #[trigger] call_ensures(cross, (p, s), c) ==> (c matches Ok(bins) ==> countable_bins(
                bins@,
            )),
        template_total(template@),
        template@.len() < usize::MAX - 1,
        holdable(1 + template@.len(), 1 + template@.len()),
        countable_bins(direct_a@),
        countable_bins(direct_b@),
    ensures
        collocated_outcome(
            *ar,
            primary,
            secondary,
            n_lags,
            direct_a@,
            direct_b@,
            cross,
            template@,
            r,
        ),
        r matches Ok(lmc) ==> lmc.well_formed(),
{
    let (coords, pv, sv): (Vec<[Double; D]>, Vec<Double>, Vec<Double>) = collocated_points(
        primary,
        secondary,
        ar,
    );
    if coords.len() < n_lags {
        return Err(
            GeostatError::InsufficientData(
                Message::owned(
                    crate::text::counts_text(
                        coords.len(),
                        " collocated primary/secondary points for ",
                        n_lags,
                        " lags: too few to fit the cross-variogram",
                    ),
                ),
            ),
        );
    }
    let places: Vec<[Double; D]> = crate::data::copy_points(&coords);
    proof {
        let at = shared(*ar, primary.places(), secondary.places());
        lemma_shared(*ar, primary.places(), secondary.places());
        assert forall|i: int| 0 <= i < sv@.len() implies (#[trigger] sv@[i]).finite() by {
            let p = primary.places()[at[i]];
            lemma_shared_occupied(*ar, primary.places(), secondary.places(), i);
            let j = choose|j: int| last_at(*ar, secondary.places(), p, j);
            assert(last_at(*ar, secondary.places(), p, j));
        }
        assert(crate::data::finite_points(coords@));
        assert(crate::data::finite_values(pv@));
        assert(crate::data::finite_values(sv@));
    }
    let p: PointSet<D> = match PointSet::new(coords, pv) {
        Err(e) => {
            return Err(e);
        },
        Ok(p) => p,
    };
    let s: PointSet<D> = match PointSet::new(places, sv) {
        Err(e) => {
            return Err(e);
        },
        Ok(s) => s,
    };
    let curve: Result<Vec<VariogramBin>, GeostatError> = cross(&p, &s);
    assert(call_ensures(cross, (&p, &s), curve));
    match curve {
        Err(e) => Err(e),
        Ok(bins) => fit_lmc(direct_a, direct_b, &bins, template, ar),
    }
}

/// At the place of a shared point there is a secondary one.
proof fn lemma_shared_occupied<const D: usize, F: Fn(Op, Double, Double) -> Double>(
    ar: Arithmetic<F>,
    primary: Seq<[Double; D]>,
    secondary: Seq<[Double; D]>,
    i: int,
)
    requires
        0 <= i < shared(ar, primary, secondary).len(),
    ensures
        occupied(ar, secondary, primary[shared(ar, primary, secondary)[i]]),
    decreases primary.len(),
{
    let before = shared(ar, primary.drop_last(), secondary);
    lemma_shared(ar, primary.drop_last(), secondary);
    if i < before.len() {
        lemma_shared_occupied(ar, primary.drop_last(), secondary, i);
    }
}

} // verus!

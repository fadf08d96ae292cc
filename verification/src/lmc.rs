//! Linear models of coregionalization: structures that all variables share,
//! each with a symmetric positive semi-definite matrix of (co)sills.

use vstd::prelude::*;

use crate::arith::{num, Arithmetic, LEAST, MINUS_ZERO, Op};
use crate::double::{Double, ONE};
use crate::error::{
    invalid, invalid_of, invalid_parameter, mismatch, mismatched, GeostatError, Message,
};
use crate::linalg::{peak, row_peak, scale_of};
use crate::text::{concat2, concat3, concat5, decimal, digits};

verus! {

/// Bit pattern of how far, relative to the scale, a matrix may be from
/// symmetric.
pub const ASYMMETRY: u64 = 0x3E11_2E0B_E826_D695;

/// Bit pattern of the least pivot, relative to the scale.
pub const LEAST_PIVOT: u64 = 0xBE11_2E0B_E826_D695;

/// Bit pattern of the least diagonal entry, relative to the scale.
pub const LEAST_DIAGONAL: u64 = 0xBD71_9799_812D_EA11;

/// Bit pattern of the pivot below which a column is taken to be zero, relative
/// to the root of the scale.
pub const VANISHING: u64 = 0x3D71_9799_812D_EA11;

/// Geometric anisotropy of a structure.
#[derive(Debug, Clone, Copy, PartialEq, Eq, Structural)]
pub struct Anisotropy {
    /// Azimuth of the major axis in degrees.
    pub azimuth_deg: Double,
    /// Ratio of the minor to the major range.
    pub ratio: Double,
    /// Ratio of the vertical to the major range.
    pub ratio_z: Double,
}

impl Anisotropy {
    /// The ratio is in (0, 1] and the azimuth is finite.
    pub open spec fn valid(self) -> bool {
        &&& self.ratio.is_positive()
        &&& !num(ONE).lt(self.ratio)
        &&& self.azimuth_deg.is_finite()
    }
}

/// One shared structure with its matrix of (co)sills.
#[derive(Debug)]
pub struct LmcStructure<const D: usize, G> {
    /// Semivariance of the structure with unit sill for a separation vector.
    pub shape: G,
    /// Range parameter.
    pub range: Double,
    /// Geometric anisotropy, if any.
    pub anis: Option<Anisotropy>,
    /// Symmetric positive semi-definite matrix of partial (co)sills, by
    /// variable and variable.
    pub sills: Vec<Vec<Double>>,
}

/// Linear model of coregionalization: a nugget matrix plus shared structures.
#[derive(Debug)]
pub struct Lmc<const D: usize, G> {
    /// Symmetric positive semi-definite nugget matrix.
    pub nugget: Vec<Vec<Double>>,
    /// Shared structures.
    pub structures: Vec<LmcStructure<D, G>>,
}

/// The single-variable model of one of the variables.
#[derive(Debug, PartialEq, Eq)]
pub struct DirectModel {
    /// Nugget.
    pub nugget: Double,
    /// Partial sills, in the order of the shared structures.
    pub sills: Vec<Double>,
}

/// Rows as sequences.
pub open spec fn grid_of(m: Seq<Vec<Double>>) -> Seq<Seq<Double>> {
    Seq::new(m.len(), |i: int| m[i]@)
}

/// The matrix has `n` rows of `n` entries.
pub open spec fn is_square(m: Seq<Seq<Double>>, n: nat) -> bool {
    m.len() == n && forall|i: int| 0 <= i < n ==> (#[trigger] m[i]).len() == n
}

/// Entries `(i, j)` and `(j, i)` agree up to the tolerance.
pub open spec fn mirrored<F: Fn(Op, Double, Double) -> Double>(
    ar: Arithmetic<F>,
    m: Seq<Seq<Double>>,
    i: int,
    j: int,
) -> bool {
    !ar.times(num(ASYMMETRY), scale_of(m)).lt(ar.minus(m[i][j], m[j][i]).abs())
}

/// Diagonal entry `i` is finite and not meaningfully negative.
pub open spec fn diagonal_ok<F: Fn(Op, Double, Double) -> Double>(
    ar: Arithmetic<F>,
    m: Seq<Seq<Double>>,
    i: int,
) -> bool {
    &&& m[i][i].is_finite()
    &&& !m[i][i].lt(ar.times(num(LEAST_DIAGONAL), scale_of(m)))
}

/// The entries of row `i` before the diagonal are mirrored.
pub open spec fn row_mirrored<F: Fn(Op, Double, Double) -> Double>(
    ar: Arithmetic<F>,
    m: Seq<Seq<Double>>,
    i: int,
    n: int,
) -> bool {
    forall|j: int| 0 <= j < n ==> #[trigger] mirrored(ar, m, i, j)
}

/// Row `i` passes: mirrored, with a proper diagonal entry.
pub open spec fn row_ok<F: Fn(Op, Double, Double) -> Double>(
    ar: Arithmetic<F>,
    m: Seq<Seq<Double>>,
    i: int,
) -> bool {
    row_mirrored(ar, m, i, i) && diagonal_ok(ar, m, i)
}

/// Rows before `n` pass.
pub open spec fn rows_ok<F: Fn(Op, Double, Double) -> Double>(
    ar: Arithmetic<F>,
    m: Seq<Seq<Double>>,
    n: int,
) -> bool {
    forall|i: int| 0 <= i < n ==> #[trigger] row_ok(ar, m, i)
}

/// Entry of the tolerant Cholesky factor below the diagonal: zero in a column
/// whose pivot vanishes.
pub open spec fn psd_lower<F: Fn(Op, Double, Double) -> Double>(
    ar: Arithmetic<F>,
    m: Seq<Seq<Double>>,
    i: int,
    k: int,
) -> Double
    decreases k, 1nat, 0nat,
{
    if k < 0 {
        num(0)
    } else {
        let d = ar.sqrt(psd_remainder(ar, m, k, k, k as nat).max(num(0)));
        if ar.times(num(VANISHING), ar.sqrt(scale_of(m))).lt(d) {
            ar.over(psd_remainder(ar, m, i, k, k as nat), d)
        } else {
            num(0)
        }
    }
}

/// Entry `(i, k)` less the products of the first `j` entries of rows `i` and
/// `k` of the factor.
pub open spec fn psd_remainder<F: Fn(Op, Double, Double) -> Double>(
    ar: Arithmetic<F>,
    m: Seq<Seq<Double>>,
    i: int,
    k: int,
    j: nat,
) -> Double
    decreases k, 0nat, j,
{
    if j == 0 || j > k {
        m[i][k]
    } else {
        ar.minus(
            psd_remainder(ar, m, i, k, (j - 1) as nat),
            ar.times(psd_lower(ar, m, i, j - 1), psd_lower(ar, m, k, j - 1)),
        )
    }
}

/// Pivot `k` is not meaningfully negative.
pub open spec fn psd_pivot<F: Fn(Op, Double, Double) -> Double>(
    ar: Arithmetic<F>,
    m: Seq<Seq<Double>>,
    k: int,
) -> bool {
    !psd_remainder(ar, m, k, k, k as nat).lt(ar.times(num(LEAST_PIVOT), scale_of(m)))
}

/// Pivots before `k` are not meaningfully negative.
pub open spec fn psd_before<F: Fn(Op, Double, Double) -> Double>(
    ar: Arithmetic<F>,
    m: Seq<Seq<Double>>,
    k: int,
) -> bool {
    forall|c: int| 0 <= c < k ==> #[trigger] psd_pivot(ar, m, c)
}

/// The matrix is square of order `n`, symmetric and positive semi-definite, as
/// far as the tolerances tell.
pub open spec fn is_psd<F: Fn(Op, Double, Double) -> Double>(
    ar: Arithmetic<F>,
    m: Seq<Seq<Double>>,
    n: nat,
) -> bool {
    is_square(m, n) && rows_ok(ar, m, n as int) && psd_before(ar, m, n as int)
}

/// Row `i` is the first that does not pass, for this reason.
pub open spec fn row_refused<F: Fn(Op, Double, Double) -> Double>(
    ar: Arithmetic<F>,
    m: Seq<Seq<Double>>,
    what: Seq<char>,
    i: int,
    e: GeostatError,
) -> bool {
    if row_mirrored(ar, m, i, i) {
        invalid(e, what + " matrix has negative diagonal at "@ + digits(i as nat))
    } else {
        exists|j: int|
            0 <= j < i && row_mirrored(ar, m, i, j) && !#[trigger] mirrored(ar, m, i, j) && invalid(
                e,
                what + " matrix is not symmetric at ("@ + digits(i as nat) + ","@ + digits(j as nat)
                    + ")"@,
            )
    }
}

/// Why the matrix is refused: the first check that fails.
pub open spec fn psd_refused<F: Fn(Op, Double, Double) -> Double>(
    ar: Arithmetic<F>,
    m: Seq<Seq<Double>>,
    n: nat,
    what: Seq<char>,
    e: GeostatError,
) -> bool {
    if !is_square(m, n) {
        mismatch(e, what + " matrix must be "@ + digits(n) + "x"@ + digits(n))
    } else if !rows_ok(ar, m, n as int) {
        exists|i: int|
            0 <= i < n && rows_ok(ar, m, i) && !#[trigger] row_ok(ar, m, i) && row_refused(
                ar,
                m,
                what,
                i,
                e,
            )
    } else {
        exists|k: int|
            0 <= k < n && psd_before(ar, m, k) && !#[trigger] psd_pivot(ar, m, k) && invalid(
                e,
                what + " matrix is not positive semi-definite (pivot "@ + digits(k as nat) + ")"@,
            )
    }
}

/// Whether a matrix has `n` rows of `n` entries.
fn square_shape(m: &Vec<Vec<Double>>, n: usize) -> (b: bool)
    ensures
        b == is_square(grid_of(m@), n as nat),
{
    if m.len() != n {
        return false;
    }
    for i in 0..n
        invariant
            m.len() == n,
            forall|r: int| 0 <= r < i ==> (#[trigger] grid_of(m@)[r]).len() == n,
    {
        if m[i].len() != n {
            assert(grid_of(m@)[i as int].len() != n);
            return false;
        }
    }
    true
}

/// Greatest magnitude in a square matrix, and not zero.
fn find_scale(m: &Vec<Vec<Double>>, n: usize) -> (s: Double)
    requires
        is_square(grid_of(m@), n as nat),
    ensures
        s == scale_of(grid_of(m@)),
{
    let ghost all = grid_of(m@);
    let mut s: Double = Double::zero();
    for i in 0..n
        invariant
            all == grid_of(m@),
            is_square(all, n as nat),
            s == peak(all.take(i as int), num(0)),
    {
        let ghost before = s;
        assert(all[i as int].len() == n);
        for j in 0..n
            invariant
                i < n,
                all == grid_of(m@),
                m.len() == n,
                all[i as int].len() == n,
                s == row_peak(all[i as int].take(j as int), before),
        {
            let ghost row = all[i as int];
            assert(row.take(j + 1).drop_last() =~= row.take(j as int));
            s = s.max(m[i][j].abs());
        }
        assert(all[i as int].take(n as int) =~= all[i as int]);
        assert(all.take(i + 1).drop_last() =~= all.take(i as int));
    }
    assert(all.take(n as int) =~= all);
    s.max(num(LEAST))
}

/// `cols[j][i]` is the entry of the tolerant factor in row `i`, column `j < i`.
pub open spec fn psd_columns<F: Fn(Op, Double, Double) -> Double>(
    ar: Arithmetic<F>,
    m: Seq<Seq<Double>>,
    cols: Seq<Vec<Double>>,
) -> bool {
    forall|j: int, i: int|
        0 <= j < cols.len() && j < i < m.len() ==> (#[trigger] cols[j]@[i]) == psd_lower(
            ar,
            m,
            i,
            j,
        )
}

/// Entry `(i, k)` less the products of rows `i` and `k` of the factor.
fn reduce<F: Fn(Op, Double, Double) -> Double>(
    m: &Vec<Vec<Double>>,
    n: usize,
    cols: &Vec<Vec<Double>>,
    i: usize,
    k: usize,
    ar: &Arithmetic<F>,
) -> (r: Double)
    requires
        ar.total(),
        is_square(grid_of(m@), n as nat),
        k <= i < n,
        cols.len() == k,
        forall|j: int| 0 <= j < k ==> (#[trigger] cols@[j]).len() == n,
        psd_columns(*ar, grid_of(m@), cols@),
    ensures
        r == psd_remainder(*ar, grid_of(m@), i as int, k as int, k as nat),
{
    let ghost all = grid_of(m@);
    assert(all[i as int].len() == n);
    let mut r: Double = m[i][k];
    for j in 0..k
        invariant
            ar.total(),
            all == grid_of(m@),
            all.len() == n,
            k <= i < n,
            cols.len() == k,
            forall|c: int| 0 <= c < k ==> (#[trigger] cols@[c]).len() == n,
            psd_columns(*ar, all, cols@),
            r == psd_remainder(*ar, all, i as int, k as int, j as nat),
    {
        assert(cols@[j as int].len() == n);
        assert(cols@[j as int]@[i as int] == psd_lower(*ar, all, i as int, j as int));
        assert(cols@[j as int]@[k as int] == psd_lower(*ar, all, k as int, j as int));
        r = ar.minus(r, ar.times(cols[j][i], cols[j][k]));
    }
    r
}

/// Checks that the diagonal and the mirror images of the entries are in order.
fn check_rows<F: Fn(Op, Double, Double) -> Double>(
    m: &Vec<Vec<Double>>,
    n: usize,
    what: &str,
    scale: Double,
    ar: &Arithmetic<F>,
) -> (r: Result<(), GeostatError>)
    requires
        ar.total(),
        is_square(grid_of(m@), n as nat),
        scale == scale_of(grid_of(m@)),
    ensures
        match r {
            Ok(_) => rows_ok(*ar, grid_of(m@), n as int),
            Err(e) => !rows_ok(*ar, grid_of(m@), n as int) && psd_refused(
                *ar,
                grid_of(m@),
                n as nat,
                what@,
                e,
            ),
        },
{
    let ghost all = grid_of(m@);
    for i in 0..n
        invariant
            ar.total(),
            all == grid_of(m@),
            is_square(all, n as nat),
            scale == scale_of(all),
            rows_ok(*ar, all, i as int),
    {
        assert(all[i as int].len() == n);
        for j in 0..i
            invariant
                ar.total(),
                all == grid_of(m@),
                is_square(all, n as nat),
                all[i as int].len() == n,
                i < n,
                scale == scale_of(all),
                rows_ok(*ar, all, i as int),
                row_mirrored(*ar, all, i as int, j as int),
        {
            assert(all[j as int].len() == n);
            if ar.times(num(ASYMMETRY), scale).lt(ar.minus(m[i][j], m[j][i]).abs()) {
                assert(!mirrored(*ar, all, i as int, j as int));
                let e: GeostatError = GeostatError::InvalidParameter(
                    Message::owned(
                        concat2(
                            concat5(
                                what,
                                " matrix is not symmetric at (",
                                decimal(i).as_str(),
                                ",",
                                decimal(j).as_str(),
                            ).as_str(),
                            ")",
                        ),
                    ),
                );
                proof {
                    assert(!row_ok(*ar, all, i as int));
                    assert(row_refused(*ar, all, what@, i as int, e));
                }
                return Err(e);
            }
        }
        if !m[i][i].is_finite() || m[i][i].lt(ar.times(num(LEAST_DIAGONAL), scale)) {
            assert(!diagonal_ok(*ar, all, i as int));
            assert(!row_ok(*ar, all, i as int));
            let e: GeostatError = GeostatError::InvalidParameter(
                Message::owned(
                    concat3(what, " matrix has negative diagonal at ", decimal(i).as_str()),
                ),
            );
            assert(row_refused(*ar, all, what@, i as int, e));
            return Err(e);
        }
        assert(row_ok(*ar, all, i as int));
    }
    Ok(())
}

/// Checks that `m` is square of order `n`, symmetric and positive
/// semi-definite, by a Cholesky factorization with a relative tolerance.
pub fn check_psd<F: Fn(Op, Double, Double) -> Double>(
    m: &Vec<Vec<Double>>,
    n: usize,
    what: &str,
    ar: &Arithmetic<F>,
) -> (r: Result<
    (),
    GeostatError,
>)
    requires
        ar.total(),
    ensures
        match r {
            Ok(_) => is_psd(*ar, grid_of(m@), n as nat),
            Err(e) => !is_psd(*ar, grid_of(m@), n as nat) && psd_refused(
                *ar,
                grid_of(m@),
                n as nat,
                what@,
                e,
            ),
        },
{
    let ghost all = grid_of(m@);
    if !square_shape(m, n) {
        return Err(
            mismatched(
                concat5(
                    what,
                    " matrix must be ",
                    decimal(n).as_str(),
                    "x",
                    decimal(n).as_str(),
                ),
            ),
        );
    }
    let scale: Double = find_scale(m, n);
    match check_rows(m, n, what, scale, ar) {
        Err(e) => {
            return Err(e);
        },
        Ok(_) => {},
    }
    let mut cols: Vec<Vec<Double>> = Vec::new();
    for k in 0..n
        invariant
            ar.total(),
            all == grid_of(m@),
            is_square(all, n as nat),
            scale == scale_of(all),
            rows_ok(*ar, all, n as int),
            cols.len() == k,
            forall|j: int| 0 <= j < k ==> (#[trigger] cols@[j]).len() == n,
            psd_columns(*ar, all, cols@),
            psd_before(*ar, all, k as int),
    {
        let pivot: Double = reduce(m, n, &cols, k, k, ar);
        if pivot.lt(ar.times(num(LEAST_PIVOT), scale)) {
            let e: GeostatError = GeostatError::InvalidParameter(
                Message::owned(
                    concat3(
                        concat2(what, " matrix is not positive semi-definite (pivot ").as_str(),
                        decimal(k).as_str(),
                        ")",
                    ),
                ),
            );
            assert(!psd_pivot(*ar, all, k as int));
            assert(psd_refused(*ar, all, n as nat, what@, e));
            return Err(e);
        }
        assert(psd_pivot(*ar, all, k as int));
        let d: Double = ar.sqrt(pivot.max(Double::zero()));
        let lives: bool = ar.times(num(VANISHING), ar.sqrt(scale)).lt(d);
        let mut col: Vec<Double> = Vec::new();
        for i in 0..n
            invariant
                ar.total(),
                all == grid_of(m@),
                is_square(all, n as nat),
                k < n,
                cols.len() == k,
                forall|j: int| 0 <= j < k ==> (#[trigger] cols@[j]).len() == n,
                psd_columns(*ar, all, cols@),
                pivot == psd_remainder(*ar, all, k as int, k as int, k as nat),
                d == ar.sqrt(pivot.max(num(0))),
                lives == ar.times(num(VANISHING), ar.sqrt(scale_of(all))).lt(d),
                col.len() == i,
                forall|r: int|
                    k < r < i ==> (#[trigger] col@[r]) == psd_lower(*ar, all, r, k as int),
        {
            if i <= k || !lives {
                col.push(Double::zero());
            } else {
                let rest: Double = reduce(m, n, &cols, i, k, ar);
                col.push(ar.over(rest, d));
            }
        }
        let ghost before = cols@;
        cols.push(col);
        assert(psd_columns(*ar, all, cols@)) by {
            assert forall|j: int, i: int|
                0 <= j < cols@.len() && j < i < all.len() implies (#[trigger] cols@[j]@[i])
                == psd_lower(*ar, all, i, j) by {
                if j < k {
                    assert(cols@[j] == before[j]);
                    assert(before[j]@[i] == psd_lower(*ar, all, i, j));
                }
            }
        }
    }
    Ok(())
}

/// What a shape gives for a separation.
pub open spec fn shape_gives<const D: usize, G: Fn([Double; D]) -> Double>(
    shape: G,
    h: Seq<Double>,
    r: Double,
) -> bool {
    exists|dh: [Double; D]| dh@ == h && #[trigger] call_ensures(shape, (dh,), r)
}

/// Value of a shape for a separation.
pub open spec fn shape_at<const D: usize, G: Fn([Double; D]) -> Double>(shape: G, h: Seq<Double>) -> Double {
    choose|r: Double| shape_gives::<D, G>(shape, h, r)
}

/// A shape can be computed for every separation, and is one value.
pub open spec fn shape_total<const D: usize, G: Fn([Double; D]) -> Double>(shape: G) -> bool {
    &&& forall|dh: [Double; D]| #[trigger] call_requires(shape, (dh,))
    &&& forall|dh: [Double; D], r: Double| #[trigger]
        call_ensures(shape, (dh,), r) ==> r == shape_at::<D, G>(shape, dh@)
}

impl<const D: usize, G> LmcStructure<D, G> {
    /// The structure is valid in a model of `n` variables.
    pub open spec fn valid<F: Fn(Op, Double, Double) -> Double>(&self, ar: Arithmetic<F>, n: nat) -> bool {
        &&& self.range.is_positive() && self.range.is_finite()
        &&& self.anis matches Some(a) ==> a.valid()
        &&& is_psd(ar, grid_of(self.sills@), n)
    }

    /// Why structure number `s` is refused: the first check that fails.
    pub open spec fn refused<F: Fn(Op, Double, Double) -> Double>(
        &self,
        ar: Arithmetic<F>,
        s: nat,
        n: nat,
        e: GeostatError,
    ) -> bool {
        if !(self.range.is_positive() && self.range.is_finite()) {
            invalid_of(
                e,
                "structure "@ + digits(s) + ": range must be finite and > 0, got {}"@,
                seq![self.range],
            )
        } else if self.anis is Some && !self.anis->0.valid() {
            invalid(e, "structure "@ + digits(s) + ": invalid anisotropy"@)
        } else {
            psd_refused(
                ar,
                grid_of(self.sills@),
                n,
                "structure "@ + digits(s) + " sill"@,
                e,
            )
        }
    }

    /// Checks structure number `s` of a model of `n` variables.
    fn check<F: Fn(Op, Double, Double) -> Double>(
        &self,
        s: usize,
        n: usize,
        ar: &Arithmetic<F>,
    ) -> (r: Result<(), GeostatError>)
        requires
            ar.total(),
        ensures
            match r {
                Ok(_) => self.valid(*ar, n as nat),
                Err(e) => !self.valid(*ar, n as nat) && self.refused(*ar, s as nat, n as nat, e),
            },
    {
        if !(self.range.is_positive() && self.range.is_finite()) {
            let mut doubles: Vec<Double> = Vec::new();
            doubles.push(self.range);
            assert(doubles@ =~= seq![self.range]);
            return Err(
                GeostatError::InvalidParameter(
                    Message::with(
                        concat3(
                            "structure ",
                            decimal(s).as_str(),
                            ": range must be finite and > 0, got {}",
                        ),
                        doubles,
                    ),
                ),
            );
        }
        if let Some(a) = self.anis {
            if !a.ratio.is_positive() || num(ONE).lt(a.ratio) || !a.azimuth_deg.is_finite() {
                return Err(
                    GeostatError::InvalidParameter(
                        Message::owned(
                            concat3("structure ", decimal(s).as_str(), ": invalid anisotropy"),
                        ),
                    ),
                );
            }
        }
        let what: String = concat3("structure ", decimal(s).as_str(), " sill");
        check_psd(&self.sills, n, what.as_str(), ar)
    }
}

/// (Co)sills of a variable pair, by structure.
pub open spec fn cosills<const D: usize, G>(
    structures: Seq<LmcStructure<D, G>>,
    u: int,
    v: int,
) -> Seq<Double> {
    Seq::new(structures.len(), |s: int| structures[s].sills@[u]@[v])
}

/// Total (co)sill of a variable pair.
pub open spec fn total_cosill<const D: usize, G, F: Fn(Op, Double, Double) -> Double>(
    ar: Arithmetic<F>,
    nugget: Seq<Vec<Double>>,
    structures: Seq<LmcStructure<D, G>>,
    u: int,
    v: int,
) -> Double {
    ar.plus(nugget[u]@[v], ar.total_of(cosills(structures, u, v)))
}

/// All structures before `k` are valid.
pub open spec fn structures_ok<const D: usize, G, F: Fn(Op, Double, Double) -> Double>(
    ar: Arithmetic<F>,
    structures: Seq<LmcStructure<D, G>>,
    n: nat,
    k: int,
) -> bool {
    forall|s: int| 0 <= s < k ==> (#[trigger] structures[s]).valid(ar, n)
}

/// The variable has a positive total sill.
pub open spec fn varies<const D: usize, G, F: Fn(Op, Double, Double) -> Double>(
    ar: Arithmetic<F>,
    nugget: Seq<Vec<Double>>,
    structures: Seq<LmcStructure<D, G>>,
    v: int,
) -> bool {
    total_cosill(ar, nugget, structures, v, v).is_positive()
}

/// All variables before `n` have a positive total sill.
pub open spec fn all_vary<const D: usize, G, F: Fn(Op, Double, Double) -> Double>(
    ar: Arithmetic<F>,
    nugget: Seq<Vec<Double>>,
    structures: Seq<LmcStructure<D, G>>,
    n: int,
) -> bool {
    forall|v: int| 0 <= v < n ==> #[trigger] varies(ar, nugget, structures, v)
}

/// Nugget matrix and structures make a model.
pub open spec fn lmc_ok<const D: usize, G, F: Fn(Op, Double, Double) -> Double>(
    ar: Arithmetic<F>,
    nugget: Seq<Vec<Double>>,
    structures: Seq<LmcStructure<D, G>>,
) -> bool {
    &&& nugget.len() > 0
    &&& is_psd(ar, grid_of(nugget), nugget.len())
    &&& structures_ok(ar, structures, nugget.len(), structures.len() as int)
    &&& all_vary(ar, nugget, structures, nugget.len() as int)
}

/// Why they do not: the first check that fails.
pub open spec fn lmc_refused<const D: usize, G, F: Fn(Op, Double, Double) -> Double>(
    ar: Arithmetic<F>,
    nugget: Seq<Vec<Double>>,
    structures: Seq<LmcStructure<D, G>>,
    e: GeostatError,
) -> bool {
    let n = nugget.len();
    if n == 0 {
        invalid(e, "LMC needs at least one variable"@)
    } else if !is_psd(ar, grid_of(nugget), n) {
        psd_refused(ar, grid_of(nugget), n, "nugget"@, e)
    } else if !structures_ok(ar, structures, n, structures.len() as int) {
        exists|s: int|
            0 <= s < structures.len() && structures_ok(ar, structures, n, s)
                && !(#[trigger] structures[s]).valid(ar, n) && structures[s].refused(
                ar,
                s as nat,
                n,
                e,
            )
    } else {
        exists|v: int|
            0 <= v < n && all_vary(ar, nugget, structures, v) && !#[trigger] varies(
                ar,
                nugget,
                structures,
                v,
            ) && invalid(e, "variable "@ + digits(v as nat) + " has non-positive total sill"@)
    }
}

/// What building a model gives.
pub open spec fn lmc_outcome<const D: usize, G, F: Fn(Op, Double, Double) -> Double>(
    ar: Arithmetic<F>,
    nugget: Seq<Vec<Double>>,
    structures: Seq<LmcStructure<D, G>>,
    r: Result<Lmc<D, G>, GeostatError>,
) -> bool {
    match r {
        Ok(lmc) => {
            &&& lmc_ok(ar, nugget, structures)
            &&& lmc.nugget@ == nugget
            &&& lmc.structures@ == structures
        },
        Err(e) => !lmc_ok(ar, nugget, structures) && lmc_refused(ar, nugget, structures, e),
    }
}

/// Every coordinate of the separation is zero.
pub open spec fn at_rest(h: Seq<Double>) -> bool {
    forall|d: int| 0 <= d < h.len() ==> (#[trigger] h[d]).eq_value(num(0))
}

impl<const D: usize, G> Lmc<D, G> {
    /// Number of variables.
    pub open spec fn variables(&self) -> nat {
        self.nugget@.len()
    }

    /// All matrices are square, of the order of the number of variables.
    pub open spec fn well_formed(&self) -> bool {
        &&& is_square(grid_of(self.nugget@), self.variables())
        &&& forall|s: int|
            0 <= s < self.structures@.len() ==> is_square(
                grid_of((#[trigger] self.structures@[s]).sills@),
                self.variables(),
            )
    }

    /// Total (co)sill of a variable pair.
    pub open spec fn cosill<F: Fn(Op, Double, Double) -> Double>(
        &self,
        ar: Arithmetic<F>,
        u: int,
        v: int,
    ) -> Double {
        total_cosill(ar, self.nugget@, self.structures@, u, v)
    }

    /// Builds and validates a model: consistent dimensions, symmetric positive
    /// semi-definite matrices, valid structure parameters, and a positive total
    /// sill of each variable.
    pub fn new<F: Fn(Op, Double, Double) -> Double>(
        nugget: Vec<Vec<Double>>,
        structures: Vec<LmcStructure<D, G>>,
        ar: &Arithmetic<F>,
    ) -> (r: Result<Self, GeostatError>)
        requires
            ar.total(),
        ensures
            lmc_outcome(*ar, nugget@, structures@, r),
            r matches Ok(lmc) ==> lmc.well_formed(),
    {
        let n: usize = nugget.len();
        if n == 0 {
            return Err(invalid_parameter("LMC needs at least one variable"));
        }
        match check_psd(&nugget, n, "nugget", ar) {
            Err(e) => {
                return Err(e);
            },
            Ok(_) => {},
        }
        for s in 0..structures.len()
            invariant
                ar.total(),
                n == nugget.len(),
                n > 0,
                is_psd(*ar, grid_of(nugget@), n as nat),
                structures_ok(*ar, structures@, n as nat, s as int),
        {
            match structures[s].check(s, n, ar) {
                Err(e) => {
                    assert(!structures@[s as int].valid(*ar, n as nat));
                    assert(!structures_ok(
                        *ar,
                        structures@,
                        n as nat,
                        structures@.len() as int,
                    ));
                    return Err(e);
                },
                Ok(_) => {},
            }
        }
        let lmc: Lmc<D, G> = Lmc { nugget, structures };
        proof {
            assert forall|s: int| 0 <= s < lmc.structures@.len() implies is_square(
                grid_of((#[trigger] lmc.structures@[s]).sills@),
                lmc.variables(),
            ) by {
                assert(lmc.structures@[s].valid(*ar, n as nat));
            }
            assert(lmc.well_formed());
        }
        for v in 0..n
            invariant
                ar.total(),
                n == lmc.variables(),
                n > 0,
                lmc.nugget == nugget,
                lmc.structures == structures,
                lmc.well_formed(),
                is_psd(*ar, grid_of(lmc.nugget@), n as nat),
                structures_ok(
                    *ar,
                    lmc.structures@,
                    n as nat,
                    lmc.structures@.len() as int,
                ),
                all_vary(*ar, lmc.nugget@, lmc.structures@, v as int),
        {
            if !lmc.total_sill(v, v, ar).is_positive() {
                assert(!varies(*ar, lmc.nugget@, lmc.structures@, v as int));
                return Err(
                    GeostatError::InvalidParameter(
                        Message::owned(
                            concat3(
                                "variable ",
                                decimal(v).as_str(),
                                " has non-positive total sill",
                            ),
                        ),
                    ),
                );
            }
            assert(varies(*ar, lmc.nugget@, lmc.structures@, v as int));
        }
        Ok(lmc)
    }

    /// Number of variables.
    pub fn n_vars(&self) -> (n: usize)
        ensures
            n == self.variables(),
    {
        self.nugget.len()
    }

    /// Nugget of a variable pair.
    pub fn nugget_of(&self, u: usize, v: usize) -> (r: Double)
        requires
            self.well_formed(),
            u < self.variables(),
            v < self.variables(),
        ensures
            r == self.nugget@[u as int]@[v as int],
    {
        assert(grid_of(self.nugget@)[u as int].len() == self.variables());
        self.nugget[u][v]
    }

    /// Partial (co)sill of a variable pair in structure `s`.
    pub fn sill_of(&self, s: usize, u: usize, v: usize) -> (r: Double)
        requires
            self.well_formed(),
            s < self.structures.len(),
            u < self.variables(),
            v < self.variables(),
        ensures
            r == self.structures@[s as int].sills@[u as int]@[v as int],
    {
        assert(is_square(grid_of(self.structures@[s as int].sills@), self.variables()));
        assert(grid_of(self.structures@[s as int].sills@)[u as int].len() == self.variables());
        self.structures[s].sills[u][v]
    }

    /// Total (co)sill for a variable pair.
    pub fn total_sill<F: Fn(Op, Double, Double) -> Double>(
        &self,
        u: usize,
        v: usize,
        ar: &Arithmetic<F>,
    ) -> (r: Double)
        requires
            self.well_formed(),
            u < self.variables(),
            v < self.variables(),
            ar.total(),
        ensures
            r == self.cosill(*ar, u as int, v as int),
    {
        let ghost all = cosills(self.structures@, u as int, v as int);
        let mut sum: Double = num(MINUS_ZERO);
        for s in 0..self.structures.len()
            invariant
                self.well_formed(),
                u < self.variables(),
                v < self.variables(),
                ar.total(),
                all == cosills(self.structures@, u as int, v as int),
                sum == ar.total_of(all.take(s as int)),
        {
            assert(all.take(s + 1).drop_last() =~= all.take(s as int));
            sum = ar.plus(sum, self.sill_of(s, u, v));
        }
        assert(all.take(all.len() as int) =~= all);
        ar.plus(self.nugget_of(u, v), sum)
    }

    /// The single-variable model of variable `v`: its nugget and its partial
    /// sills.
    pub fn direct_model(&self, v: usize) -> (m: DirectModel)
        requires
            self.well_formed(),
            v < self.variables(),
        ensures
            m.nugget == self.nugget@[v as int]@[v as int],
            m.sills@ == cosills(self.structures@, v as int, v as int),
    {
        let mut sills: Vec<Double> = Vec::new();
        for s in 0..self.structures.len()
            invariant
                self.well_formed(),
                v < self.variables(),
                sills@ =~= cosills(self.structures@, v as int, v as int).take(s as int),
        {
            sills.push(self.sill_of(s, v, v));
        }
        assert(sills@ =~= cosills(self.structures@, v as int, v as int));
        DirectModel { nugget: self.nugget_of(v, v), sills }
    }
}

impl DirectModel {
    /// Total sill.
    pub fn total_sill<F: Fn(Op, Double, Double) -> Double>(&self, ar: &Arithmetic<F>) -> (r: Double)
        requires
            ar.total(),
        ensures
            r == ar.plus(self.nugget, ar.total_of(self.sills@)),
    {
        ar.plus(self.nugget, ar.add_up(&self.sills))
    }
}

impl<const D: usize, G: Fn([Double; D]) -> Double> Lmc<D, G> {
    /// Values of the unit-sill structures for a separation.
    pub open spec fn shapes(&self, h: Seq<Double>) -> Seq<Double> {
        Seq::new(
            self.structures@.len(),
            |s: int| shape_at::<D, G>(self.structures@[s].shape, h),
        )
    }

    /// Every structure can be computed.
    pub open spec fn total(&self) -> bool {
        forall|s: int|
            0 <= s < self.structures@.len() ==> shape_total::<D, G>(
                (#[trigger] self.structures@[s]).shape,
            )
    }

    /// Cross-semivariance of a variable pair for a separation: zero at rest.
    pub open spec fn cross_gamma<F: Fn(Op, Double, Double) -> Double>(
        &self,
        ar: Arithmetic<F>,
        u: int,
        v: int,
        h: Seq<Double>,
    ) -> Double {
        if at_rest(h) {
            num(0)
        } else {
            ar.dot_from(
                self.nugget@[u]@[v],
                cosills(self.structures@, u, v),
                self.shapes(h),
                self.structures@.len() as int,
            )
        }
    }

    /// Cross-covariance of a variable pair for a separation: what the
    /// cross-semivariance leaves of the total (co)sill.
    pub open spec fn cross<F: Fn(Op, Double, Double) -> Double>(
        &self,
        ar: Arithmetic<F>,
        u: int,
        v: int,
        h: Seq<Double>,
    ) -> Double {
        ar.minus(self.cosill(ar, u, v), self.cross_gamma(ar, u, v, h))
    }

    /// Cross-semivariance for a separation vector.
    pub fn gamma_dh<F: Fn(Op, Double, Double) -> Double>(
        &self,
        u: usize,
        v: usize,
        dh: [Double; D],
        ar: &Arithmetic<F>,
    ) -> (r: Double)
        requires
            self.well_formed(),
            self.total(),
            u < self.variables(),
            v < self.variables(),
            ar.total(),
        ensures
            r == self.cross_gamma(*ar, u as int, v as int, dh@),
    {
        let mut rest: bool = true;
        for d in 0..D
            invariant
                rest <==> forall|i: int| 0 <= i < d ==> (#[trigger] dh@[i]).eq_value(num(0)),
        {
            if !dh[d].eq_value(Double::zero()) {
                rest = false;
            }
        }
        if rest {
            return Double::zero();
        }
        let mut g: Double = self.nugget_of(u, v);
        for s in 0..self.structures.len()
            invariant
                self.well_formed(),
                self.total(),
                u < self.variables(),
                v < self.variables(),
                ar.total(),
                g == ar.dot_from(
                    self.nugget@[u as int]@[v as int],
                    cosills(self.structures@, u as int, v as int),
                    self.shapes(dh@),
                    s as int,
                ),
        {
            assert(shape_total::<D, G>(self.structures@[s as int].shape));
            let x: Double = (self.structures[s].shape)(dh);
            g = ar.plus(g, ar.times(self.sill_of(s, u, v), x));
        }
        g
    }

    /// Cross-covariance for a separation vector.
    pub fn covariance_dh<F: Fn(Op, Double, Double) -> Double>(
        &self,
        u: usize,
        v: usize,
        dh: [Double; D],
        ar: &Arithmetic<F>,
    ) -> (r:
        Double)
        requires
            self.well_formed(),
            self.total(),
            u < self.variables(),
            v < self.variables(),
            ar.total(),
        ensures
            r == self.cross(*ar, u as int, v as int, dh@),
    {
        ar.minus(self.total_sill(u, v, ar), self.gamma_dh(u, v, dh, ar))
    }
}

} // verus!

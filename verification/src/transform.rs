//! Normal score transform: the table of knots, its checks and its lookup.

use vstd::prelude::*;

use crate::arith::{num, Arithmetic, Op, HALF};
use crate::data::{all_values_finite, finite_values};
use crate::double::{Double, ONE};
use crate::error::{insufficient, invalid, mismatch, GeostatError, Message};
use crate::order::{sort_positions, stable_order};
use crate::tails::{
    draw_lower, draw_upper, keeps_order, lower_draw_stays, lower_drawn, upper_draw_stays, upper_drawn,
    TailModel,
};
use crate::text::{counts_text, digits};

verus! {

/// Bit pattern of coefficient 0: 0.31938153.
pub const CDF0: u64 = 0x3FD4_70BF_3A92_F8EC;

/// Bit pattern of coefficient 1: -0.356563782.
pub const CDF1: u64 = 0xBFD6_D1F0_E5A8_325B;

/// Bit pattern of coefficient 2: 1.781477937.
pub const CDF2: u64 = 0x3FFC_80EF_025F_5E68;

/// Bit pattern of coefficient 3: -1.821255978.
pub const CDF3: u64 = 0xBFFD_23DD_4EF2_78D0;

/// Bit pattern of coefficient 4: 1.330274429.
pub const CDF4: u64 = 0x3FF5_48CD_D6F4_2943;

/// Bit pattern of central numerator coefficient 0: -39.69683028665376.
pub const NUM0: u64 = 0xC043_D931_BC1E_0525;

/// Bit pattern of central numerator coefficient 1: 220.9460984245205.
pub const NUM1: u64 = 0x406B_9E46_7034_039B;

/// Bit pattern of central numerator coefficient 2: -275.9285104469687.
pub const NUM2: u64 = 0xC071_3EDB_2DC5_3B99;

/// Bit pattern of central numerator coefficient 3: 138.357751867269.
pub const NUM3: u64 = 0x4061_4B72_B40B_401B;

/// Bit pattern of central numerator coefficient 4: -30.66479806614716.
pub const NUM4: u64 = 0xC03E_AA30_34C0_8BCD;

/// Bit pattern of central numerator coefficient 5: 2.506628277459239.
pub const NUM5: u64 = 0x4004_0D93_2057_5479;

/// Bit pattern of central denominator coefficient 0: -54.47609879822406.
pub const DEN0: u64 = 0xC04B_3CF0_CE30_04C4;

/// Bit pattern of central denominator coefficient 1: 161.5858368580409.
pub const DEN1: u64 = 0x4064_32BF_2CF0_4277;

/// Bit pattern of central denominator coefficient 2: -155.6989798598866.
pub const DEN2: u64 = 0xC063_765E_0B02_D8D2;

/// Bit pattern of central denominator coefficient 3: 66.80131188771972.
pub const DEN3: u64 = 0x4050_B348_B1A7_E9BE;

/// Bit pattern of central denominator coefficient 4: -13.28068155288572.
pub const DEN4: u64 = 0xC02A_8FB5_7E14_7826;

/// Bit pattern of tail numerator coefficient 0: -0.007784894002430293.
pub const TNUM0: u64 = 0xBF7F_E30D_924A_CFE0;

/// Bit pattern of tail numerator coefficient 1: -0.3223964580411365.
pub const TNUM1: u64 = 0xBFD4_A224_C0E8_81B8;

/// Bit pattern of tail numerator coefficient 2: -2.400758277161838.
pub const TNUM2: u64 = 0xC003_34C0_C170_1758;

/// Bit pattern of tail numerator coefficient 3: -2.549732539343734.
pub const TNUM3: u64 = 0xC004_65DA_2C70_3A1A;

/// Bit pattern of tail numerator coefficient 4: 4.374664141464968.
pub const TNUM4: u64 = 0x4011_7FA7_F4EA_4DC7;

/// Bit pattern of tail numerator coefficient 5: 2.938163982698783.
pub const TNUM5: u64 = 0x4007_815C_1E3F_CFA2;

/// Bit pattern of tail denominator coefficient 0: 0.007784695709041462.
pub const TDEN0: u64 = 0x3F7F_E2D8_57AC_9FD4;

/// Bit pattern of tail denominator coefficient 1: 0.3224671290700398.
pub const TDEN1: u64 = 0x3FD4_A34D_2B59_0364;

/// Bit pattern of tail denominator coefficient 2: 2.445134137142996.
pub const TDEN2: u64 = 0x4003_8FA2_7C8A_E616;

/// Bit pattern of tail denominator coefficient 3: 3.754408661907416.
pub const TDEN3: u64 = 0x400E_0907_6895_B119;

/// Bit pattern of 0.2316419.
pub const CDF_STEP: u64 = 0x3FCD_A671_1871_100E;

/// Bit pattern of twice pi.
pub const TWO_PI: u64 = 0x4019_21FB_5444_2D18;

/// Bit pattern of minus one half.
pub const MINUS_HALF: u64 = 0xBFE0_0000_0000_0000;

/// Bit pattern of 0.02425: the tails begin below it.
pub const TAIL_BELOW: u64 = 0x3F98_D4FD_F3B6_45A2;

/// Bit pattern of 1e-300.
pub const PROB_MIN: u64 = 0x01A5_6E1F_C2F8_F359;

/// Bit pattern of 1 - 1e-16, as rounded.
pub const PROB_MAX: u64 = 0x3FEF_FFFF_FFFF_FFFF;

/// Bit pattern of minus two.
pub const MINUS_TWO: u64 = 0xC000_0000_0000_0000;

/// Tail options for the normal-score back-transform (GSLIB `ltail`/`utail`
/// with `zmin`/`zmax`). The default extrapolates nothing (clamps at the data
/// extremes).
#[derive(Clone, Copy, Debug, PartialEq, Eq, Structural)]
pub struct Tails {
    /// Lower-tail model (`Hyperbolic` is invalid here).
    pub lower: TailModel,
    /// Upper-tail model.
    pub upper: TailModel,
    /// Lower bound `zmin` (required unless `lower` clamps).
    pub lower_bound: Option<Double>,
    /// Upper bound `zmax` (required unless `upper` clamps; caps the hyperbolic
    /// tail).
    pub upper_bound: Option<Double>,
}

/// Tails that extrapolate nothing.
pub open spec fn clamped_tails() -> Tails {
    Tails {
        lower: TailModel::Clamped,
        upper: TailModel::Clamped,
        lower_bound: None,
        upper_bound: None,
    }
}

impl Default for Tails {
    fn default() -> (t: Tails)
        ensures
            t == clamped_tails(),
    {
        Tails {
            lower: TailModel::Clamped,
            upper: TailModel::Clamped,
            lower_bound: None,
            upper_bound: None,
        }
    }
}

impl Tails {
    /// The lower tail fits data whose smallest value is `vmin`.
    pub open spec fn lower_fits(self, vmin: Double) -> bool {
        self.lower == TailModel::Clamped || (self.lower_bound matches Some(z) && z.at_most(vmin))
    }

    /// The upper tail fits data whose largest value is `vmax`.
    pub open spec fn upper_fits(self, vmax: Double) -> bool {
        self.upper == TailModel::Clamped || (self.upper_bound matches Some(z) && vmax.at_most(z)
            && (self.upper is Hyperbolic ==> vmax.positive()))
    }

    /// The tails can extrapolate data between `vmin` and `vmax`.
    pub open spec fn fit(self, vmin: Double, vmax: Double) -> bool {
        self.lower.lower_ok() && self.upper.proper() && self.lower_fits(vmin) && self.upper_fits(
            vmax,
        )
    }

    /// Why the tails do not fit: the first check that fails.
    pub open spec fn refusal(self, vmin: Double, vmax: Double, e: GeostatError) -> bool {
        if !self.lower.lower_ok() {
            match self.lower {
                TailModel::Power(w) => e matches GeostatError::InvalidParameter(m) && m.says_of(
                    "power tail exponent must be positive, got {}"@,
                    seq![w],
                ),
                _ => e matches GeostatError::InvalidParameter(m) && m.says(
                    "hyperbolic tails apply to the upper tail only"@,
                ),
            }
        } else if !self.upper.proper() {
            e matches GeostatError::InvalidParameter(m) && m.says_of(
                "tail exponent must be positive, got {}"@,
                seq![
                    (match self.upper {
                        TailModel::Power(w) => w,
                        TailModel::Hyperbolic(w) => w,
                        _ => vmax,
                    }),
                ],
            )
        } else if !self.lower_fits(vmin) {
            match self.lower_bound {
                None => e matches GeostatError::InvalidParameter(m) && m.says(
                    "lower tail requires a lower bound (zmin)"@,
                ),
                Some(z) => e matches GeostatError::InvalidParameter(m) && m.says_of(
                    "zmin ({}) must not exceed the data minimum ({})"@,
                    seq![z, vmin],
                ),
            }
        } else {
            match self.upper_bound {
                None => e matches GeostatError::InvalidParameter(m) && m.says(
                    "upper tail requires an upper bound (zmax)"@,
                ),
                Some(z) => if !vmax.at_most(z) {
                    e matches GeostatError::InvalidParameter(m) && m.says_of(
                        "zmax ({}) must not be below the data maximum ({})"@,
                        seq![z, vmax],
                    )
                } else {
                    e matches GeostatError::InvalidParameter(m) && m.says(
                        "hyperbolic upper tail requires a positive data maximum"@,
                    )
                },
            }
        }
    }

    /// Checks the tails against the smallest and largest data value.
    pub fn check(self, vmin: Double, vmax: Double) -> (r: Result<(), GeostatError>)
        ensures
            r is Ok <==> self.fit(vmin, vmax),
            r matches Err(e) ==> self.refusal(vmin, vmax, e),
    {
        match self.lower.validate_lower() {
            Err(e) => {
                return Err(e);
            },
            Ok(_) => {},
        }
        match self.upper.validate_upper() {
            Err(e) => {
                return Err(e);
            },
            Ok(_) => {},
        }
        if self.lower != TailModel::Clamped {
            match self.lower_bound {
                None => {
                    return Err(
                        GeostatError::InvalidParameter(
                            Message::plain("lower tail requires a lower bound (zmin)"),
                        ),
                    );
                },
                Some(z) => {
                    if !z.le(vmin) {
                        let mut doubles: Vec<Double> = Vec::new();
                        doubles.push(z);
                        doubles.push(vmin);
                        assert(doubles@ =~= seq![z, vmin]);
                        return Err(
                            GeostatError::InvalidParameter(
                                Message::with(
                                    "zmin ({}) must not exceed the data minimum ({})".to_owned(),
                                    doubles,
                                ),
                            ),
                        );
                    }
                },
            }
        }
        if self.upper != TailModel::Clamped {
            match self.upper_bound {
                None => {
                    return Err(
                        GeostatError::InvalidParameter(
                            Message::plain("upper tail requires an upper bound (zmax)"),
                        ),
                    );
                },
                Some(z) => {
                    if !vmax.le(z) {
                        let mut doubles: Vec<Double> = Vec::new();
                        doubles.push(z);
                        doubles.push(vmax);
                        assert(doubles@ =~= seq![z, vmax]);
                        return Err(
                            GeostatError::InvalidParameter(
                                Message::with(
                                    "zmax ({}) must not be below the data maximum ({})".to_owned(),
                                    doubles,
                                ),
                            ),
                        );
                    }
                    if let TailModel::Hyperbolic(_) = self.upper {
                        if !vmax.is_positive() {
                            return Err(
                                GeostatError::InvalidParameter(
                                    Message::plain(
                                        "hyperbolic upper tail requires a positive data maximum",
                                    ),
                                ),
                            );
                        }
                    }
                },
            }
        }
        Ok(())
    }
}

/// Strictly ascending doubles, none NaN.
pub open spec fn strictly_ascending(xs: Seq<Double>) -> bool {
    &&& forall|i: int| 0 <= i < xs.len() ==> !(#[trigger] xs[i]).nan()
    &&& forall|i: int, j: int|
        0 <= i < j < xs.len() ==> (#[trigger] xs[i]).below(#[trigger] xs[j])
}

/// Ascending doubles, none NaN.
pub open spec fn ascends(xs: Seq<Double>) -> bool {
    &&& forall|i: int| 0 <= i < xs.len() ==> !(#[trigger] xs[i]).nan()
    &&& forall|i: int, j: int|
        0 <= i < j < xs.len() ==> (#[trigger] xs[i]).at_most(#[trigger] xs[j])
}

/// Number of leading elements below `x`, for ascending `xs`.
pub fn count_below(xs: &Vec<Double>, x: Double) -> (k: usize)
    requires
        ascends(xs@),
    ensures
        k <= xs.len(),
        forall|i: int| 0 <= i < k ==> (#[trigger] xs@[i]).below(x),
        forall|i: int| k <= i < xs.len() ==> !(#[trigger] xs@[i]).below(x),
{
    let mut lo: usize = 0;
    let mut hi: usize = xs.len();
    while lo < hi
        invariant
            lo <= hi <= xs.len(),
            ascends(xs@),
            forall|i: int| 0 <= i < lo ==> (#[trigger] xs@[i]).below(x),
            forall|i: int| hi <= i < xs.len() ==> !(#[trigger] xs@[i]).below(x),
        decreases hi - lo,
    {
        let mid: usize = lo + (hi - lo) / 2;
        if xs[mid].lt(x) {
            assert forall|i: int| 0 <= i < mid + 1 implies (#[trigger] xs@[i]).below(x) by {
                if i < mid {
                    assert(xs@[i].at_most(xs@[mid as int]));
                }
            }
            lo = mid + 1;
        } else {
            assert forall|i: int| mid <= i < xs.len() implies !(#[trigger] xs@[i]).below(x) by {
                if mid < i {
                    assert(xs@[mid as int].at_most(xs@[i]));
                }
            }
            hi = mid;
        }
    }
    lo
}

/// Standard normal cdf (Abramowitz & Stegun 26.2.19; absolute error < 7.5e-8).
pub open spec fn normal_cdf<F: Fn(Op, Double, Double) -> Double>(ar: Arithmetic<F>, z: Double) -> Double {
    let upper = upper_half_cdf(ar, z.abs());
    if num(0).le(z) {
        upper
    } else {
        ar.minus(num(ONE), upper)
    }
}

/// The cdf of a value that is not negative.
pub open spec fn upper_half_cdf<F: Fn(Op, Double, Double) -> Double>(
    ar: Arithmetic<F>,
    x: Double,
) -> Double {
    let t = ar.over(num(ONE), ar.plus(num(ONE), ar.times(num(CDF_STEP), x)));
    let pdf = ar.over(
        ar.exp(ar.times(ar.times(num(MINUS_HALF), x), x)),
        ar.sqrt(num(TWO_PI)),
    );
    ar.minus(
        num(ONE),
        ar.times(
            pdf,
            ar.times(
                t,
                ar.plus(
                    num(CDF0),
                    ar.times(
                        t,
                        ar.plus(
                            num(CDF1),
                            ar.times(
                                t,
                                ar.plus(num(CDF2), ar.times(t, ar.plus(num(CDF3), ar.times(t, num(CDF4))))),
                            ),
                        ),
                    ),
                ),
            ),
        ),
    )
}

/// Standard normal cdf (Abramowitz & Stegun 26.2.19; absolute error < 7.5e-8).
pub fn norm_cdf<F: Fn(Op, Double, Double) -> Double>(z: Double, ar: &Arithmetic<F>) -> (p: Double)
    requires
        ar.total(),
    ensures
        p == normal_cdf(*ar, z),
{
    let x: Double = z.abs();
    let t: Double = ar.over(num(ONE), ar.plus(num(ONE), ar.times(num(CDF_STEP), x)));
    let pdf: Double = ar.over(
        ar.exp(ar.times(ar.times(num(MINUS_HALF), x), x)),
        ar.sqrt(num(TWO_PI)),
    );
    let upper: Double = ar.minus(
        num(ONE),
        ar.times(
            pdf,
            ar.times(
                t,
                ar.plus(
                    num(CDF0),
                    ar.times(
                        t,
                        ar.plus(
                            num(CDF1),
                            ar.times(
                                t,
                                ar.plus(num(CDF2), ar.times(t, ar.plus(num(CDF3), ar.times(t, num(CDF4))))),
                            ),
                        ),
                    ),
                ),
            ),
        ),
    );
    if num(0).le(z) {
        upper
    } else {
        ar.minus(num(ONE), upper)
    }
}

/// Quantile in the lower tail.
pub open spec fn tail_quantile<F: Fn(Op, Double, Double) -> Double>(
    ar: Arithmetic<F>,
    p: Double,
) -> Double {
    let q = ar.sqrt(ar.times(num(MINUS_TWO), ar.ln(p)));
    ar.over(
        ar.plus(
            ar.times(
                ar.plus(
                    ar.times(
                        ar.plus(
                            ar.times(
                                ar.plus(
                                    ar.times(ar.plus(ar.times(num(TNUM0), q), num(TNUM1)), q),
                                    num(TNUM2),
                                ),
                                q,
                            ),
                            num(TNUM3),
                        ),
                        q,
                    ),
                    num(TNUM4),
                ),
                q,
            ),
            num(TNUM5),
        ),
        ar.plus(
            ar.times(
                ar.plus(
                    ar.times(
                        ar.plus(ar.times(ar.plus(ar.times(num(TDEN0), q), num(TDEN1)), q), num(TDEN2)),
                        q,
                    ),
                    num(TDEN3),
                ),
                q,
            ),
            num(ONE),
        ),
    )
}

fn tail_quantile_of<F: Fn(Op, Double, Double) -> Double>(p: Double, ar: &Arithmetic<F>) -> (z: Double)
    requires
        ar.total(),
    ensures
        z == tail_quantile(*ar, p),
{
    let q: Double = ar.sqrt(ar.times(num(MINUS_TWO), ar.ln(p)));
    ar.over(
        ar.plus(
            ar.times(
                ar.plus(
                    ar.times(
                        ar.plus(
                            ar.times(
                                ar.plus(
                                    ar.times(ar.plus(ar.times(num(TNUM0), q), num(TNUM1)), q),
                                    num(TNUM2),
                                ),
                                q,
                            ),
                            num(TNUM3),
                        ),
                        q,
                    ),
                    num(TNUM4),
                ),
                q,
            ),
            num(TNUM5),
        ),
        ar.plus(
            ar.times(
                ar.plus(
                    ar.times(
                        ar.plus(ar.times(ar.plus(ar.times(num(TDEN0), q), num(TDEN1)), q), num(TDEN2)),
                        q,
                    ),
                    num(TDEN3),
                ),
                q,
            ),
            num(ONE),
        ),
    )
}

/// Quantile in the center.
pub open spec fn central_quantile<F: Fn(Op, Double, Double) -> Double>(
    ar: Arithmetic<F>,
    p: Double,
) -> Double {
    let q = ar.minus(p, num(HALF));
    let r = ar.times(q, q);
    ar.over(
        ar.times(
            ar.plus(
                ar.times(
                    ar.plus(
                        ar.times(
                            ar.plus(
                                ar.times(
                                    ar.plus(
                                        ar.times(ar.plus(ar.times(num(NUM0), r), num(NUM1)), r),
                                        num(NUM2),
                                    ),
                                    r,
                                ),
                                num(NUM3),
                            ),
                            r,
                        ),
                        num(NUM4),
                    ),
                    r,
                ),
                num(NUM5),
            ),
            q,
        ),
        ar.plus(
            ar.times(
                ar.plus(
                    ar.times(
                        ar.plus(
                            ar.times(
                                ar.plus(ar.times(ar.plus(ar.times(num(DEN0), r), num(DEN1)), r), num(DEN2)),
                                r,
                            ),
                            num(DEN3),
                        ),
                        r,
                    ),
                    num(DEN4),
                ),
                r,
            ),
            num(ONE),
        ),
    )
}

/// Probabilities from which the upper tail begins.
pub open spec fn upper_tail_from<F: Fn(Op, Double, Double) -> Double>(ar: Arithmetic<F>) -> Double {
    ar.minus(num(ONE), num(TAIL_BELOW))
}

/// A probability, kept inside the open unit interval.
pub open spec fn inner_probability(p: Double) -> Double {
    p.clamp(num(PROB_MIN), num(PROB_MAX))
}

/// Where the lower tail ends.
pub open spec fn lower_tail_to() -> Double {
    num(TAIL_BELOW)
}

/// Inverse standard normal cdf (Acklam's rational approximation, absolute
/// error < 1.15e-9), of a probability kept inside the open unit interval.
pub open spec fn normal_quantile<F: Fn(Op, Double, Double) -> Double>(
    ar: Arithmetic<F>,
    p: Double,
) -> Double {
    let q = inner_probability(p);
    if q.lt(lower_tail_to()) {
        tail_quantile(ar, q)
    } else if q.le(upper_tail_from(ar)) {
        central_quantile(ar, q)
    } else {
        tail_quantile(ar, ar.minus(num(ONE), q)).neg()
    }
}

/// Inverse standard normal cdf. The probability is kept inside the open unit
/// interval.
pub fn inv_norm_cdf<F: Fn(Op, Double, Double) -> Double>(p: Double, ar: &Arithmetic<F>) -> (z: Double)
    requires
        ar.total(),
    ensures
        z == normal_quantile(*ar, p),
{
    let p: Double = p.clamp(num(PROB_MIN), num(PROB_MAX));
    if p.lt(num(TAIL_BELOW)) {
        tail_quantile_of(p, ar)
    } else if p.le(ar.minus(num(ONE), num(TAIL_BELOW))) {
        let q: Double = ar.minus(p, num(HALF));
        let r: Double = ar.times(q, q);
        ar.over(
            ar.times(
                ar.plus(
                    ar.times(
                        ar.plus(
                            ar.times(
                                ar.plus(
                                    ar.times(
                                        ar.plus(
                                            ar.times(ar.plus(ar.times(num(NUM0), r), num(NUM1)), r),
                                            num(NUM2),
                                        ),
                                        r,
                                    ),
                                    num(NUM3),
                                ),
                                r,
                            ),
                            num(NUM4),
                        ),
                        r,
                    ),
                    num(NUM5),
                ),
                q,
            ),
            ar.plus(
                ar.times(
                    ar.plus(
                        ar.times(
                            ar.plus(
                                ar.times(
                                    ar.plus(
                                        ar.times(ar.plus(ar.times(num(DEN0), r), num(DEN1)), r),
                                        num(DEN2),
                                    ),
                                    r,
                                ),
                                num(DEN3),
                            ),
                            r,
                        ),
                        num(DEN4),
                    ),
                    r,
                ),
                num(ONE),
            ),
        )
    } else {
        tail_quantile_of(ar.minus(num(ONE), p), ar).neg()
    }
}

/// The point at `x` on the line through `(x0, y0)` and `(x1, y1)`.
pub open spec fn between<F: Fn(Op, Double, Double) -> Double>(
    ar: Arithmetic<F>,
    x0: Double,
    x1: Double,
    y0: Double,
    y1: Double,
    x: Double,
) -> Double {
    ar.plus(
        y0,
        ar.times(ar.over(ar.minus(x, x0), ar.minus(x1, x0)), ar.minus(y1, y0)),
    )
}

/// `y` is the table's value at `x`: the extreme entries outside it, and between
/// two knots the point on the line through them.
pub open spec fn looked_up<F: Fn(Op, Double, Double) -> Double>(
    ar: Arithmetic<F>,
    xs: Seq<Double>,
    ys: Seq<Double>,
    x: Double,
    y: Double,
) -> bool {
    if x.at_most(xs[0]) {
        y == ys[0]
    } else if xs.last().at_most(x) {
        y == ys.last()
    } else {
        exists|hi: int|
            0 < hi < xs.len() && (#[trigger] xs[hi - 1]).below(x) && x.at_most(xs[hi]) && y
                == between(ar, xs[hi - 1], xs[hi], ys[hi - 1], ys[hi], x)
    }
}

/// The table's value is unique.
pub proof fn lookup_is_unique<F: Fn(Op, Double, Double) -> Double>(
    ar: Arithmetic<F>,
    xs: Seq<Double>,
    ys: Seq<Double>,
    x: Double,
    a: Double,
    b: Double,
)
    requires
        ascends(xs),
        looked_up(ar, xs, ys, x, a),
        looked_up(ar, xs, ys, x, b),
    ensures
        a == b,
{
    if !x.at_most(xs[0]) && !xs.last().at_most(x) {
        let i = choose|hi: int|
            0 < hi < xs.len() && (#[trigger] xs[hi - 1]).below(x) && x.at_most(xs[hi]) && a
                == between(ar, xs[hi - 1], xs[hi], ys[hi - 1], ys[hi], x);
        let j = choose|hi: int|
            0 < hi < xs.len() && (#[trigger] xs[hi - 1]).below(x) && x.at_most(xs[hi]) && b
                == between(ar, xs[hi - 1], xs[hi], ys[hi - 1], ys[hi], x);
        if i < j {
            if i < j - 1 {
                assert(xs[i].at_most(xs[j - 1]));
            }
        } else if j < i {
            if j < i - 1 {
                assert(xs[j].at_most(xs[i - 1]));
            }
        }
    }
}

/// Piecewise-linear interpolation over ascending `xs`, clamped at the
/// extremes.
pub fn interp<F: Fn(Op, Double, Double) -> Double>(
    xs: &Vec<Double>,
    ys: &Vec<Double>,
    x: Double,
    ar: &Arithmetic<F>,
) -> (y: Double)
    requires
        xs.len() > 0,
        xs.len() == ys.len(),
        ascends(xs@),
        !x.nan(),
        ar.total(),
    ensures
        looked_up(*ar, xs@, ys@, x, y),
{
    let last: usize = xs.len() - 1;
    assert(!xs@[0].nan());
    assert(!xs@[last as int].nan());
    if x.le(xs[0]) {
        return ys[0];
    }
    if xs[last].le(x) {
        return ys[last];
    }
    let hi: usize = count_below(xs, x);
    assert(xs@[0].below(x));
    assert(!xs@[last as int].below(x));
    assert(0 < hi < xs.len());
    assert(!xs@[hi as int].nan());
    let t: Double = ar.over(ar.minus(x, xs[hi - 1]), ar.minus(xs[hi], xs[hi - 1]));
    let y: Double = ar.plus(ys[hi - 1], ar.times(t, ar.minus(ys[hi], ys[hi - 1])));
    assert(xs@[hi - 1].below(x) && x.at_most(xs@[hi as int]));
    y
}

/// The values in the order of positions `order`.
pub open spec fn arranged(values: Seq<Double>, order: Seq<usize>) -> Seq<Double> {
    Seq::new(order.len(), |i: int| values[order[i] as int])
}

/// Total-order keys of doubles.
pub open spec fn total_keys(values: Seq<Double>) -> Seq<i64> {
    Seq::new(values.len(), |i: int| values[i].total() as i64)
}

/// `cuts` are the starts of the groups of equal doubles in `sorted`, and its
/// length at the end.
pub open spec fn cuts_into_ties(sorted: Seq<Double>, cuts: Seq<int>) -> bool {
    &&& cuts.len() >= 1
    &&& cuts[0] == 0
    &&& cuts.last() == sorted.len()
    &&& forall|g: int, h: int|
        0 <= g < h < cuts.len() ==> (#[trigger] cuts[g]) < (#[trigger] cuts[h])
    &&& forall|g: int, h: int, i: int|
        0 <= g < h < cuts.len() && h == g + 1 && cuts[g] <= i < #[trigger] cuts[h] ==> (
        #[trigger] sorted[i]).equals(sorted[#[trigger] cuts[g]])
    &&& forall|g: int, h: int|
        0 <= g < h < cuts.len() - 1 && h == g + 1 ==> !sorted[#[trigger] cuts[g]].equals(
            sorted[#[trigger] cuts[h]],
        )
}

/// Normal scores of weights in ascending order of the data: quantiles of the
/// weighted plotting positions, `(sum before + w / 2) / total`.
pub open spec fn scores_of<F: Fn(Op, Double, Double) -> Double>(
    ar: Arithmetic<F>,
    weights: Seq<Double>,
    total: Double,
) -> Seq<Double> {
    Seq::new(
        weights.len(),
        |i: int|
            normal_quantile(
                ar,
                ar.over(
                    ar.plus(ar.accumulated(weights.take(i)), ar.times(num(HALF), weights[i])),
                    total,
                ),
            ),
    )
}

/// Weighted mean of scores.
pub open spec fn weighted_mean<F: Fn(Op, Double, Double) -> Double>(
    ar: Arithmetic<F>,
    weights: Seq<Double>,
    scores: Seq<Double>,
) -> Double {
    ar.over(
        ar.dot_from(num(0), weights, scores, weights.len() as int),
        ar.accumulated(weights),
    )
}

/// The knots of the table: one per group of equal values, with the weighted
/// mean of the group's scores.
pub open spec fn knots<F: Fn(Op, Double, Double) -> Double>(
    ar: Arithmetic<F>,
    kv: Seq<Double>,
    ks: Seq<Double>,
    sorted: Seq<Double>,
    weights: Seq<Double>,
    scores: Seq<Double>,
    cuts: Seq<int>,
) -> bool {
    &&& cuts_into_ties(sorted, cuts)
    &&& kv.len() == cuts.len() - 1
    &&& ks.len() == kv.len()
    &&& forall|g: int| 0 <= g < kv.len() ==> #[trigger] kv[g] == sorted[cuts[g]]
    &&& forall|g: int|
        0 <= g < ks.len() ==> #[trigger] ks[g] == weighted_mean(
            ar,
            weights.subrange(cuts[g], cuts[g + 1]),
            scores.subrange(cuts[g], cuts[g + 1]),
        )
}

/// Rank-based normal score transform: knots of data values and scores, strictly
/// ascending in the values. Ties are assigned the mean score of their group.
pub struct NormalScore {
    knots_v: Vec<Double>,
    knots_s: Vec<Double>,
    tails: Tails,
}

/// Copies of the elements from `lo` up to `hi`.
fn slice_of(v: &Vec<Double>, lo: usize, hi: usize) -> (s: Vec<Double>)
    requires
        lo <= hi <= v.len(),
    ensures
        s@ == v@.subrange(lo as int, hi as int),
{
    let mut s: Vec<Double> = Vec::new();
    for i in lo..hi
        invariant
            lo <= hi <= v.len(),
            s@ =~= v@.subrange(lo as int, i as int),
    {
        s.push(v[i]);
    }
    s
}

/// Collapses groups of equal values into knots.
fn collapse_ties<F: Fn(Op, Double, Double) -> Double>(
    sorted: &Vec<Double>,
    sorted_weights: &Vec<Double>,
    scores: &Vec<Double>,
    ar: &Arithmetic<F>,
) -> (r: (Vec<Double>, Vec<Double>, Ghost<Seq<int>>))
    requires
        sorted.len() == sorted_weights.len(),
        sorted.len() == scores.len(),
        ar.total(),
        forall|a: int| 0 <= a < sorted.len() ==> (#[trigger] sorted@[a]).finite(),
    ensures
        knots(*ar, r.0@, r.1@, sorted@, sorted_weights@, scores@, r.2@),
{
    let n: usize = sorted.len();
    let mut knots_v: Vec<Double> = Vec::new();
    let mut knots_s: Vec<Double> = Vec::new();
    let ghost mut cuts: Seq<int> = seq![0int];
    let mut i: usize = 0;
    while i < n
        invariant
            i <= n,
            n == sorted.len(),
            n == sorted_weights.len(),
            n == scores.len(),
            ar.total(),
            forall|a: int| 0 <= a < n ==> (#[trigger] sorted@[a]).finite(),
            cuts.len() == knots_v.len() + 1,
            knots_s.len() == knots_v.len(),
            cuts[0] == 0,
            cuts.last() == i,
            forall|g: int, h: int|
                0 <= g < h < cuts.len() ==> (#[trigger] cuts[g]) < (#[trigger] cuts[h]),
            forall|g: int, a: int|
                0 <= g < cuts.len() - 1 && cuts[g] <= a < cuts[g + 1] ==> (
                #[trigger] sorted@[a]).equals(sorted@[#[trigger] cuts[g]]),
            forall|g: int|
                0 <= g < cuts.len() - 2 ==> !sorted@[#[trigger] cuts[g]].equals(
                    sorted@[cuts[g + 1]],
                ),
            cuts.len() >= 2 && i < n ==> !sorted@[cuts[cuts.len() - 2]].equals(
                sorted@[i as int],
            ),
            forall|g: int| 0 <= g < knots_v.len() ==> #[trigger] knots_v@[g] == sorted@[cuts[g]],
            forall|g: int|
                0 <= g < knots_s.len() ==> #[trigger] knots_s@[g] == weighted_mean(
                    *ar,
                    sorted_weights@.subrange(cuts[g], cuts[g + 1]),
                    scores@.subrange(cuts[g], cuts[g + 1]),
                ),
        decreases n - i,
    {
        let vi: Double = sorted[i];
        let mut j: usize = i + 1;
        while j < n && sorted[j].eq_value(vi)
            invariant
                i < j <= n,
                n == sorted.len(),
                vi == sorted@[i as int],
                vi.finite(),
                forall|a: int| i <= a < j ==> (#[trigger] sorted@[a]).equals(vi),
            decreases n - j,
        {
            j = j + 1;
        }
        let w: Vec<Double> = slice_of(sorted_weights, i, j);
        let s: Vec<Double> = slice_of(scores, i, j);
        let m: Double = ar.over(ar.dot(Double::zero(), &w, &s, w.len()), ar.accumulate(&w));
        let ghost old_cuts = cuts;
        knots_v.push(vi);
        knots_s.push(m);
        proof {
            cuts = old_cuts.push(j as int);
            assert forall|g: int, a: int|
                0 <= g < cuts.len() - 1 && cuts[g] <= a < cuts[g + 1] implies (
            #[trigger] sorted@[a]).equals(sorted@[#[trigger] cuts[g]]) by {
                if g == cuts.len() - 2 {
                    assert(cuts[g] == i);
                } else {
                    assert(old_cuts[g] == cuts[g] && old_cuts[g + 1] == cuts[g + 1]);
                }
            }
            assert forall|g: int| 0 <= g < cuts.len() - 2 implies !sorted@[
                #[trigger] cuts[g]
            ].equals(sorted@[cuts[g + 1]]) by {
                if g == cuts.len() - 3 {
                    assert(old_cuts[g] == cuts[g]);
                    assert(cuts[g + 1] == i);
                } else {
                    assert(old_cuts[g] == cuts[g] && old_cuts[g + 1] == cuts[g + 1]);
                }
            }
        }
        i = j;
    }
    (knots_v, knots_s, Ghost(cuts))
}

/// Every weight is finite and positive.
pub open spec fn positive_weights(weights: Seq<Double>) -> bool {
    forall|i: int|
        0 <= i < weights.len() ==> (#[trigger] weights[i]).finite() && weights[i].positive()
}

fn all_weights_positive(weights: &Vec<Double>) -> (b: bool)
    ensures
        b == positive_weights(weights@),
{
    for i in 0..weights.len()
        invariant
            forall|j: int|
                0 <= j < i ==> (#[trigger] weights@[j]).finite() && weights@[j].positive(),
    {
        if !(weights[i].is_finite() && weights[i].is_positive()) {
            return false;
        }
    }
    true
}

/// All values are the same double.
pub open spec fn all_equal(values: Seq<Double>) -> bool {
    forall|i: int, j: int|
        0 <= i < j < values.len() ==> (#[trigger] values[i]).equals(#[trigger] values[j])
}

/// `v` is a smallest of the values.
pub open spec fn smallest(values: Seq<Double>, v: Double) -> bool {
    values.contains(v) && forall|i: int| 0 <= i < values.len() ==> v.at_most(#[trigger] values[i])
}

/// `v` is a largest of the values.
pub open spec fn largest(values: Seq<Double>, v: Double) -> bool {
    values.contains(v) && forall|i: int| 0 <= i < values.len() ==> (#[trigger] values[i]).at_most(v)
}

/// The fit can be done.
pub open spec fn fit_ok(values: Seq<Double>, weights: Seq<Double>, tails: Tails) -> bool {
    &&& values.len() >= 2
    &&& finite_values(values)
    &&& weights.len() == values.len()
    &&& positive_weights(weights)
    &&& !all_equal(values)
    &&& forall|lo: Double, hi: Double|
        #![trigger smallest(values, lo), largest(values, hi)]
        smallest(values, lo) && largest(values, hi) ==> tails.fit(lo, hi)
}

/// Why the fit cannot be done: the first check that fails.
pub open spec fn fit_refused(
    values: Seq<Double>,
    weights: Seq<Double>,
    tails: Tails,
    e: GeostatError,
) -> bool {
    if values.len() < 2 {
        insufficient(e, "normal score transform requires at least 2 values"@)
    } else if !finite_values(values) {
        invalid(e, "non-finite value"@)
    } else if weights.len() != values.len() {
        mismatch(e, digits(weights.len()) + " weights vs "@ + digits(values.len()) + " values"@)
    } else if !positive_weights(weights) {
        invalid(e, "declustering weights must be finite and positive"@)
    } else if all_equal(values) {
        invalid(e, "all values are identical; cannot build a normal score transform"@)
    } else {
        exists|lo: Double, hi: Double|
            #![trigger smallest(values, lo), largest(values, hi)]
            smallest(values, lo) && largest(values, hi) && tails.refusal(lo, hi, e)
    }
}

/// What a fit gives.
pub open spec fn fit_outcome<F: Fn(Op, Double, Double) -> Double>(
    ar: Arithmetic<F>,
    r: Result<NormalScore, GeostatError>,
    values: Seq<Double>,
    weights: Seq<Double>,
    tails: Tails,
) -> bool {
    match r {
        Ok(ns) => {
            &&& fit_ok(values, weights, tails)
            &&& ns.well_formed()
            &&& ns.tail_options() == tails
            &&& fitted(ar, ns, values, weights)
        },
        Err(e) => !fit_ok(values, weights, tails) && fit_refused(values, weights, tails, e),
    }
}

/// The same weight for each of `n` values.
pub open spec fn unit_weights(n: nat) -> Seq<Double> {
    Seq::new(n, |i: int| Double { bits: ONE })
}

impl NormalScore {
    /// Data values of the knots.
    pub closed spec fn values(&self) -> Seq<Double> {
        self.knots_v@
    }

    /// Scores of the knots.
    pub closed spec fn scores(&self) -> Seq<Double> {
        self.knots_s@
    }

    /// Tail options.
    pub closed spec fn tail_options(&self) -> Tails {
        self.tails
    }

    /// At least two knots, strictly ascending in the values, and tails that fit
    /// them.
    pub open spec fn well_formed(&self) -> bool {
        &&& self.values().len() >= 2
        &&& self.scores().len() == self.values().len()
        &&& strictly_ascending(self.values())
        &&& self.tail_options().fit(self.values()[0], self.values().last())
    }

    /// Weighted fit with tail extrapolation: the reference cdf uses weighted
    /// plotting positions, so preferentially clustered samples do not bias the
    /// target distribution. The tail bounds must bracket the data range where
    /// the corresponding tail is not clamped.
    pub fn fit_weighted_with_tails<F: Fn(Op, Double, Double) -> Double>(
        values: &Vec<Double>,
        weights: &Vec<Double>,
        tails: Tails,
        ar: &Arithmetic<F>,
    ) -> (r: Result<NormalScore, GeostatError>)
        requires
            ar.total(),
        ensures
            fit_outcome(*ar, r, values@, weights@, tails),
    {
        if values.len() < 2 {
            return Err(
                GeostatError::InsufficientData(
                    Message::plain("normal score transform requires at least 2 values"),
                ),
            );
        }
        if !all_values_finite(values) {
            return Err(GeostatError::InvalidParameter(Message::plain("non-finite value")));
        }
        if weights.len() != values.len() {
            return Err(
                GeostatError::DimensionMismatch(
                    Message::owned(
                        counts_text(weights.len(), " weights vs ", values.len(), " values"),
                    ),
                ),
            );
        }
        if !all_weights_positive(weights) {
            return Err(
                GeostatError::InvalidParameter(
                    Message::plain("declustering weights must be finite and positive"),
                ),
            );
        }
        let n: usize = values.len();
        let mut keys: Vec<i64> = Vec::new();
        for i in 0..n
            invariant
                n == values.len(),
                keys.len() == i,
                forall|j: int| 0 <= j < i ==> #[trigger] keys@[j] == values@[j].total(),
        {
            keys.push(values[i].total_key());
        }
        assert(keys@ =~= total_keys(values@));
        let order: Vec<usize> = sort_positions(&keys);
        let mut sorted: Vec<Double> = Vec::new();
        let mut sorted_weights: Vec<Double> = Vec::new();
        for i in 0..n
            invariant
                n == values.len(),
                n == weights.len(),
                n == order.len(),
                forall|j: int| 0 <= j < n ==> (#[trigger] order@[j]) < n,
                sorted@ =~= arranged(values@, order@.take(i as int)),
                sorted_weights@ =~= arranged(weights@, order@.take(i as int)),
        {
            sorted.push(values[order[i]]);
            sorted_weights.push(weights[order[i]]);
        }
        assert(order@.take(n as int) =~= order@);
        let total: Double = ar.add_up(weights);
        let mut scores: Vec<Double> = Vec::new();
        let mut cum: Double = Double::zero();
        for i in 0..n
            invariant
                ar.total(),
                n == sorted_weights.len(),
                scores.len() == i,
                cum == ar.accumulated(sorted_weights@.take(i as int)),
                forall|j: int|
                    0 <= j < i ==> #[trigger] scores@[j] == scores_of(
                        *ar,
                        sorted_weights@,
                        total,
                    )[j],
        {
            let w: Double = sorted_weights[i];
            let p: Double = ar.over(ar.plus(cum, ar.times(num(HALF), w)), total);
            scores.push(inv_norm_cdf(p, ar));
            assert(sorted_weights@.take(i + 1).drop_last() =~= sorted_weights@.take(i as int));
            cum = ar.plus(cum, w);
        }
        assert(scores@ =~= scores_of(*ar, sorted_weights@, total));
        proof {
            lemma_sorted(values@, keys@, order@);
        }
        let (knots_v, knots_s, Ghost(cuts)) = collapse_ties(
            &sorted,
            &sorted_weights,
            &scores,
            ar,
        );
        proof {
            lemma_knots_ascend(values@, order@, sorted@, cuts, knots_v@);
        }
        if knots_v.len() < 2 {
            return Err(
                GeostatError::InvalidParameter(
                    Message::plain(
                        "all values are identical; cannot build a normal score transform",
                    ),
                ),
            );
        }
        let vmin: Double = knots_v[0];
        let vmax: Double = knots_v[knots_v.len() - 1];
        proof {
            lemma_extremes_agree(values@, vmin, vmax, tails);
        }
        match tails.check(vmin, vmax) {
            Err(e) => {
                assert(smallest(values@, vmin) && largest(values@, vmax));
                return Err(e);
            },
            Ok(_) => {},
        }
        let ns = NormalScore { knots_v, knots_s, tails };
        proof {
            assert(fits_with(*ar, ns, values@, weights@, order@, cuts));
        }
        Ok(ns)
    }

    /// Fits the transform with tail extrapolation for the back-transform.
    pub fn fit_with_tails<F: Fn(Op, Double, Double) -> Double>(
        values: &Vec<Double>,
        tails: Tails,
        ar: &Arithmetic<F>,
    ) -> (r: Result<
        NormalScore,
        GeostatError,
    >)
        requires
            ar.total(),
        ensures
            fit_outcome(*ar, r, values@, unit_weights(values@.len()), tails),
    {
        let mut weights: Vec<Double> = Vec::new();
        for i in 0..values.len()
            invariant
                weights@ =~= unit_weights(i as nat),
        {
            weights.push(Double::from_bits(ONE));
        }
        NormalScore::fit_weighted_with_tails(values, &weights, tails, ar)
    }

    /// Fits the transform with declustering weights. Weights must be positive;
    /// with unit weights this is exactly [`NormalScore::fit`].
    pub fn fit_weighted<F: Fn(Op, Double, Double) -> Double>(
        values: &Vec<Double>,
        weights: &Vec<Double>,
        ar: &Arithmetic<F>,
    ) -> (r: Result<NormalScore, GeostatError>)
        requires
            ar.total(),
        ensures
            fit_outcome(*ar, r, values@, weights@, clamped_tails()),
    {
        NormalScore::fit_weighted_with_tails(values, weights, Tails::default(), ar)
    }

    /// Fits the transform to a sample. Requires at least two distinct values.
    /// Back-transformed values are clamped to the data range (no tails).
    pub fn fit<F: Fn(Op, Double, Double) -> Double>(
        values: &Vec<Double>,
        ar: &Arithmetic<F>,
    ) -> (r: Result<NormalScore, GeostatError>)
        requires
            ar.total(),
        ensures
            fit_outcome(*ar, r, values@, unit_weights(values@.len()), clamped_tails()),
    {
        NormalScore::fit_with_tails(values, Tails::default(), ar)
    }

    /// `s` is the score of a value.
    pub open spec fn scored<F: Fn(Op, Double, Double) -> Double>(
        &self,
        ar: Arithmetic<F>,
        v: Double,
        s: Double,
    ) -> bool {
        looked_up(ar, self.values(), self.scores(), v, s)
    }

    /// Maps a data value to its normal score.
    pub fn transform<F: Fn(Op, Double, Double) -> Double>(&self, v: Double, ar: &Arithmetic<F>) -> (s: Double)
        requires
            self.well_formed(),
            !v.nan(),
            ar.total(),
        ensures
            self.scored(*ar, v, s),
    {
        interp(&self.knots_v, &self.knots_s, v, ar)
    }

    /// Relative cdf position of `s` in the lower tail, below the first score.
    pub open spec fn lower_position<F: Fn(Op, Double, Double) -> Double>(
        ar: Arithmetic<F>,
        s: Double,
        first: Double,
    ) -> Double {
        let f1 = normal_cdf(ar, first);
        if f1.is_positive() {
            ar.over(normal_cdf(ar, s), f1)
        } else {
            num(0)
        }
    }

    /// Relative cdf position of `s` in the upper tail, above the last score.
    pub open spec fn upper_position<F: Fn(Op, Double, Double) -> Double>(
        ar: Arithmetic<F>,
        s: Double,
        last: Double,
    ) -> Double {
        let fk = normal_cdf(ar, last);
        let span = ar.minus(num(ONE), fk);
        if span.is_positive() {
            ar.over(ar.minus(normal_cdf(ar, s), fk), span)
        } else {
            num(ONE)
        }
    }

    /// `z` is score `s`, mapped back: beyond the table, what the tail models
    /// give at the relative cdf position; otherwise the table's value.
    pub open spec fn mapped_back<F: Fn(Op, Double, Double) -> Double>(
        &self,
        ar: Arithmetic<F>,
        s: Double,
        z: Double,
    ) -> bool {
        let tails = self.tail_options();
        let first = self.scores()[0];
        let last = self.scores().last();
        if s.below(first) && tails.lower != TailModel::Clamped {
            z == lower_drawn(
                ar,
                tails.lower,
                tails.lower_bound->0,
                self.values()[0],
                NormalScore::lower_position(ar, s, first),
            )
        } else if last.below(s) && tails.upper != TailModel::Clamped {
            z == upper_drawn(
                ar,
                tails.upper,
                self.values().last(),
                tails.upper_bound->0,
                NormalScore::upper_position(ar, s, last),
            )
        } else {
            looked_up(ar, self.scores(), self.values(), s, z)
        }
    }

    /// Maps a normal score back to data units. Scores beyond the table are
    /// extrapolated with the configured tail models (clamped to the data range
    /// by default).
    pub fn back_transform<F: Fn(Op, Double, Double) -> Double>(
        &self,
        s: Double,
        ar: &Arithmetic<F>,
    ) -> (z: Double)
        requires
            self.well_formed(),
            ascends(self.scores()),
            !s.nan(),
            ar.total(),
        ensures
            self.mapped_back(*ar, s, z),
    {
        let last: usize = self.knots_s.len() - 1;
        if s.lt(self.knots_s[0]) && self.tails.lower != TailModel::Clamped {
            if let Some(zmin) = self.tails.lower_bound {
                let f1: Double = norm_cdf(self.knots_s[0], ar);
                let t: Double = if f1.is_positive() {
                    ar.over(norm_cdf(s, ar), f1)
                } else {
                    Double::zero()
                };
                return draw_lower(self.tails.lower, zmin, self.knots_v[0], t, ar);
            }
        }
        if self.knots_s[last].lt(s) && self.tails.upper != TailModel::Clamped {
            if let Some(zmax) = self.tails.upper_bound {
                let fk: Double = norm_cdf(self.knots_s[last], ar);
                let span: Double = ar.minus(num(ONE), fk);
                let t: Double = if span.is_positive() {
                    ar.over(ar.minus(norm_cdf(s, ar), fk), span)
                } else {
                    num(ONE)
                };
                return draw_upper(self.tails.upper, self.knots_v[last], zmax, t, ar);
            }
        }
        interp(&self.knots_s, &self.knots_v, s, ar)
    }
}

/// The transform was fitted with this order and these groups.
pub open spec fn fits_with<F: Fn(Op, Double, Double) -> Double>(
    ar: Arithmetic<F>,
    ns: NormalScore,
    values: Seq<Double>,
    weights: Seq<Double>,
    order: Seq<usize>,
    cuts: Seq<int>,
) -> bool {
    let sorted_weights = arranged(weights, order);
    &&& stable_order(total_keys(values), order)
    &&& knots(
        ar,
        ns.values(),
        ns.scores(),
        arranged(values, order),
        sorted_weights,
        scores_of(ar, sorted_weights, ar.total_of(weights)),
        cuts,
    )
}

/// The transform's knots are those of the data: sorted, scored by rank, and
/// collapsed over ties.
pub open spec fn fitted<F: Fn(Op, Double, Double) -> Double>(
    ar: Arithmetic<F>,
    ns: NormalScore,
    values: Seq<Double>,
    weights: Seq<Double>,
) -> bool {
    exists|order: Seq<usize>, cuts: Seq<int>| #[trigger]
        fits_with(ar, ns, values, weights, order, cuts)
}

/// The values in stable order ascend.
pub(crate) proof fn lemma_sorted(values: Seq<Double>, keys: Seq<i64>, order: Seq<usize>)
    requires
        finite_values(values),
        keys == total_keys(values),
        stable_order(keys, order),
    ensures
        forall|a: int| 0 <= a < order.len() ==> (#[trigger] arranged(values, order)[a]).finite(),
        forall|a: int, b: int|
            0 <= a < b < order.len() ==> (#[trigger] arranged(values, order)[a]).at_most(
                #[trigger] arranged(values, order)[b],
            ),
{
    let sorted = arranged(values, order);
    assert forall|a: int| 0 <= a < order.len() implies (#[trigger] sorted[a]).finite() by {
        assert(values[order[a] as int].finite());
    }
    assert forall|a: int, b: int| 0 <= a < b < order.len() implies (#[trigger] sorted[a]).at_most(
        #[trigger] sorted[b],
    ) by {
        assert(crate::order::precedes(keys, order[a], order[b]));
        assert(values[order[a] as int].finite());
        assert(values[order[b] as int].finite());
        crate::double::lemma_total_refines_below(sorted[a], sorted[b]);
    }
}

proof fn lemma_knots_ascend(
    values: Seq<Double>,
    order: Seq<usize>,
    sorted: Seq<Double>,
    cuts: Seq<int>,
    kv: Seq<Double>,
)
    requires
        2 <= values.len() <= usize::MAX,
        finite_values(values),
        stable_order(total_keys(values), order),
        sorted == arranged(values, order),
        cuts_into_ties(sorted, cuts),
        kv.len() == cuts.len() - 1,
        forall|g: int| 0 <= g < kv.len() ==> #[trigger] kv[g] == sorted[cuts[g]],
    ensures
        kv.len() >= 1,
        strictly_ascending(kv),
        smallest(values, kv[0]),
        largest(values, kv.last()),
        kv.len() < 2 <==> all_equal(values),
{
    lemma_sorted(values, total_keys(values), order);
    let n = sorted.len() as int;
    assert(cuts.len() >= 2) by {
        if cuts.len() == 1 {
            assert(cuts.last() == cuts[0]);
        }
    }
    assert forall|g: int| 0 <= g < kv.len() implies !(#[trigger] kv[g]).nan() && 0 <= cuts[g]
        < n by {
        assert(cuts[g] < cuts[cuts.len() - 1]);
        if g > 0 {
            assert(cuts[0] < cuts[g]);
        }
        assert(sorted[cuts[g]].finite());
    }
    assert forall|i: int, j: int| 0 <= i < j < kv.len() implies (#[trigger] kv[i]).below(
        #[trigger] kv[j],
    ) by {
        lemma_step_ascends(sorted, cuts, i, j);
    }
    // The first and last groups hold the extremes.
    assert(values.contains(kv[0])) by {
        assert(kv[0] == values[order[0] as int]);
    }
    let last = kv.len() - 1;
    assert(kv.last() == sorted[cuts[last]]);
    assert(values.contains(kv.last())) by {
        assert(kv.last() == values[order[cuts[last]] as int]);
    }
    assert forall|i: int| 0 <= i < values.len() implies kv[0].at_most(#[trigger] values[i])
        && values[i].at_most(kv.last()) by {
        assert(order.contains(i as usize));
        let p = choose|p: int| 0 <= p < order.len() && order[p] == i as usize;
        assert(sorted[p] == values[i]);
        assert(sorted[0].finite());
        if p > 0 {
            assert(sorted[0].at_most(sorted[p]));
        }
        if p < cuts[last] {
            assert(sorted[p].at_most(sorted[cuts[last]]));
        } else {
            assert(cuts[last + 1] == n);
            assert(sorted[p].equals(sorted[cuts[last]]));
        }
    }
    if kv.len() >= 2 {
        assert(kv[0].below(kv[1]));
        let a = order[cuts[0]] as int;
        let b = order[cuts[1]] as int;
        assert(values[a] == kv[0]);
        assert(values[b] == kv[1]);
        assert(a != b);
        if a < b {
            assert(!values[a].equals(values[b]));
        } else {
            assert(!values[b].equals(values[a]));
        }
        assert(!all_equal(values));
    } else {
        assert forall|i: int, j: int| 0 <= i < j < values.len() implies (
        #[trigger] values[i]).equals(#[trigger] values[j]) by {
            assert(kv[0].at_most(values[i]));
            assert(values[i].at_most(kv.last()));
            assert(kv[0].at_most(values[j]));
            assert(values[j].at_most(kv.last()));
        }
    }
}

proof fn lemma_step_ascends(sorted: Seq<Double>, cuts: Seq<int>, i: int, j: int)
    requires
        cuts_into_ties(sorted, cuts),
        forall|a: int| 0 <= a < sorted.len() ==> (#[trigger] sorted[a]).finite(),
        forall|a: int, b: int|
            0 <= a < b < sorted.len() ==> (#[trigger] sorted[a]).at_most(#[trigger] sorted[b]),
        0 <= i < j < cuts.len() - 1,
    ensures
        sorted[cuts[i]].below(sorted[cuts[j]]),
    decreases j - i,
{
    assert(cuts[i] < cuts[j]);
    assert(cuts[j] < cuts[cuts.len() - 1]);
    if i > 0 {
        assert(cuts[0] < cuts[i]);
    }
    assert(sorted[cuts[i]].at_most(sorted[cuts[j]]));
    if j == i + 1 {
        assert(!sorted[cuts[i]].equals(sorted[cuts[i + 1]]));
    } else {
        lemma_step_ascends(sorted, cuts, i, j - 1);
        lemma_step_ascends(sorted, cuts, j - 1, j);
    }
}

/// Whether tails fit depends on the extremes only up to the sign of zero.
proof fn lemma_extremes_agree(values: Seq<Double>, vmin: Double, vmax: Double, tails: Tails)
    requires
        finite_values(values),
        smallest(values, vmin),
        largest(values, vmax),
    ensures
        forall|lo: Double, hi: Double|
            #![trigger smallest(values, lo), largest(values, hi)]
            smallest(values, lo) && largest(values, hi) ==> tails.fit(lo, hi) == tails.fit(
                vmin,
                vmax,
            ),
{
    let a = choose|a: int| 0 <= a < values.len() && values[a] == vmin;
    let b = choose|b: int| 0 <= b < values.len() && values[b] == vmax;
    assert forall|lo: Double, hi: Double|
        #![trigger smallest(values, lo), largest(values, hi)]
        smallest(values, lo) && largest(values, hi) implies tails.fit(lo, hi) == tails.fit(
        vmin,
        vmax,
    ) by {
        let c = choose|c: int| 0 <= c < values.len() && values[c] == lo;
        let d = choose|d: int| 0 <= d < values.len() && values[d] == hi;
        assert(lo.at_most(values[a]));
        assert(vmin.at_most(values[c]));
        assert(values[b].at_most(hi));
        assert(values[d].at_most(vmax));
    }
}

/// The groups of equal values are unique.
proof fn lemma_cuts_unique(sorted: Seq<Double>, a: Seq<int>, b: Seq<int>, g: int)
    requires
        cuts_into_ties(sorted, a),
        cuts_into_ties(sorted, b),
        forall|i: int| 0 <= i < sorted.len() ==> (#[trigger] sorted[i]).finite(),
        0 <= g < a.len(),
        g < b.len(),
    ensures
        a[g] == b[g],
    decreases g,
{
    if g > 0 {
        lemma_cuts_unique(sorted, a, b, g - 1);
        lemma_cut_not_after(sorted, a, b, g);
        lemma_cut_not_after(sorted, b, a, g);
    }
}

proof fn lemma_cut_not_after(sorted: Seq<Double>, a: Seq<int>, b: Seq<int>, g: int)
    requires
        cuts_into_ties(sorted, a),
        cuts_into_ties(sorted, b),
        forall|i: int| 0 <= i < sorted.len() ==> (#[trigger] sorted[i]).finite(),
        0 < g < a.len(),
        g < b.len(),
        a[g - 1] == b[g - 1],
    ensures
        a[g] >= b[g],
{
    if a[g] < b[g] {
        // Position a[g] lies in group g - 1 of b, yet starts a new group of a.
        if g < b.len() - 1 {
            assert(b[g] < b[b.len() - 1]);
        }
        assert(a[g - 1] < a[g]);
        assert(sorted[a[g]].equals(sorted[b[g - 1]]));
        if g < a.len() - 1 {
            assert(!sorted[a[g - 1]].equals(sorted[a[g]]));
        } else {
            assert(a[g] == sorted.len());
        }
    }
}

/// The fit is a function of the data: two transforms fitted to the same values
/// and weights have the same knots.
pub proof fn fit_is_unique<F: Fn(Op, Double, Double) -> Double>(
    ar: Arithmetic<F>,
    a: NormalScore,
    b: NormalScore,
    values: Seq<Double>,
    weights: Seq<Double>,
)
    requires
        finite_values(values),
        fitted(ar, a, values, weights),
        fitted(ar, b, values, weights),
    ensures
        a.values() == b.values(),
        a.scores() == b.scores(),
{
    let (oa, ca) = choose|order: Seq<usize>, cuts: Seq<int>| #[trigger]
        fits_with(ar, a, values, weights, order, cuts);
    let (ob, cb) = choose|order: Seq<usize>, cuts: Seq<int>| #[trigger]
        fits_with(ar, b, values, weights, order, cuts);
    crate::order::stable_order_is_unique(total_keys(values), oa, ob);
    lemma_sorted(values, total_keys(values), oa);
    let sorted = arranged(values, oa);
    assert(ca.len() == cb.len()) by {
        if ca.len() < cb.len() {
            lemma_cuts_unique(sorted, ca, cb, ca.len() - 1);
            assert(cb[ca.len() - 1] < cb[cb.len() - 1]);
        }
        if cb.len() < ca.len() {
            lemma_cuts_unique(sorted, ca, cb, cb.len() - 1);
            assert(ca[cb.len() - 1] < ca[ca.len() - 1]);
        }
    }
    assert forall|g: int| 0 <= g < ca.len() implies ca[g] == cb[g] by {
        lemma_cuts_unique(sorted, ca, cb, g);
    }
    assert(a.values() =~= b.values());
    assert(a.scores() =~= b.scores());
}

/// Fitting with unit weights is fitting without weights.
pub proof fn unit_weights_change_nothing<F: Fn(Op, Double, Double) -> Double>(
    ar: Arithmetic<F>,
    a: NormalScore,
    b: NormalScore,
    values: Seq<Double>,
    weights: Seq<Double>,
)
    requires
        finite_values(values),
        weights == unit_weights(values.len()),
        fitted(ar, a, values, unit_weights(values.len())),
        fitted(ar, b, values, weights),
    ensures
        a.values() == b.values(),
        a.scores() == b.scores(),
{
    fit_is_unique(ar, a, b, values, weights);
}

/// Lines rise with the values they join.
pub open spec fn lines_rise<F: Fn(Op, Double, Double) -> Double>(ar: Arithmetic<F>) -> bool {
    forall|x0: Double, x1: Double, y0: Double, y1: Double, x: Double, w: Double|
        #![trigger between(ar, x0, x1, y0, y1, x), between(ar, x0, x1, y0, y1, w)]
        x0.below(x1) && x0.at_most(x) && x.at_most(w) && w.at_most(x1) && y0.at_most(y1)
            ==> between(ar, x0, x1, y0, y1, x).at_most(between(ar, x0, x1, y0, y1, w))
}

/// Lines meet the value at their end.
pub open spec fn lines_meet_ends<F: Fn(Op, Double, Double) -> Double>(ar: Arithmetic<F>) -> bool {
    forall|x0: Double, x1: Double, y0: Double, y1: Double, x: Double|
        #![trigger between(ar, x0, x1, y0, y1, x)]
        x0.below(x1) && x.equals(x1) ==> between(ar, x0, x1, y0, y1, x) == y1
}

impl NormalScore {
    /// The least value that a score is mapped back to: the lower bound, or the least
    /// value of the data where the tail is clamped.
    pub open spec fn low_end(&self) -> Double {
        if self.tail_options().lower == TailModel::Clamped {
            self.values()[0]
        } else {
            self.tail_options().lower_bound->0
        }
    }

    /// The greatest value that a score is mapped back to: the upper bound, or the
    /// greatest value of the data where the tail is clamped.
    pub open spec fn high_end(&self) -> Double {
        if self.tail_options().upper == TailModel::Clamped {
            self.values().last()
        } else {
            self.tail_options().upper_bound->0
        }
    }

    /// Every score has a position in the tails.
    pub open spec fn places_scores<F: Fn(Op, Double, Double) -> Double>(&self, ar: Arithmetic<F>) -> bool {
        forall|s: Double|
            #![trigger NormalScore::lower_position(ar, s, self.scores()[0])]
            #![trigger NormalScore::upper_position(ar, s, self.scores().last())]
            !s.nan() ==> !NormalScore::lower_position(ar, s, self.scores()[0]).nan()
                && !NormalScore::upper_position(ar, s, self.scores().last()).nan()
    }

    proof fn lemma_values_ascend(&self)
        requires
            self.well_formed(),
        ensures
            ascends(self.values()),
            self.low_end().at_most(self.values()[0]),
            self.values().last().at_most(self.high_end()),
    {
        let v = self.values();
        assert forall|i: int, j: int| 0 <= i < j < v.len() implies (#[trigger] v[i]).at_most(
            #[trigger] v[j],
        ) by {
            assert(v[i].below(v[j]));
        }
        assert(!v[0].nan());
        assert(!v[v.len() - 1].nan());
    }

    /// A score is mapped back between the tail bounds, or into the range of the data
    /// where a tail is clamped, for an arithmetic that keeps order.
    pub proof fn mapped_back_stays_in_bounds<F: Fn(Op, Double, Double) -> Double>(
        &self,
        ar: Arithmetic<F>,
        s: Double,
        z: Double,
    )
        requires
            self.well_formed(),
            ascends(self.scores()),
            keeps_order(ar),
            self.places_scores(ar),
            !s.nan(),
            self.mapped_back(ar, s, z),
        ensures
            self.low_end().at_most(z),
            z.at_most(self.high_end()),
    {
        self.lemma_values_ascend();
        let v = self.values();
        let x = self.scores();
        let tails = self.tail_options();
        let n = v.len() as int;
        assert(v[0].at_most(v[n - 1]));
        assert(!NormalScore::lower_position(ar, s, x[0]).nan());
        assert(!NormalScore::upper_position(ar, s, x.last()).nan());
        if s.below(x[0]) && tails.lower != TailModel::Clamped {
            lower_draw_stays(
                ar,
                tails.lower,
                tails.lower_bound->0,
                v[0],
                NormalScore::lower_position(ar, s, x[0]),
            );
        } else if x.last().below(s) && tails.upper != TailModel::Clamped {
            upper_draw_stays(
                ar,
                tails.upper,
                v.last(),
                tails.upper_bound->0,
                NormalScore::upper_position(ar, s, x.last()),
            );
        } else {
            lemma_lookup_stays(ar, x, v, s, z);
        }
    }

    /// Greater scores are mapped back to no lesser values where the tails are clamped,
    /// for an arithmetic that keeps order.
    pub proof fn mapped_back_keeps_order<F: Fn(Op, Double, Double) -> Double>(
        &self,
        ar: Arithmetic<F>,
        s1: Double,
        s2: Double,
        z1: Double,
        z2: Double,
    )
        requires
            self.well_formed(),
            ascends(self.scores()),
            keeps_order(ar),
            lines_rise(ar),
            self.tail_options().lower == TailModel::Clamped,
            self.tail_options().upper == TailModel::Clamped,
            s1.at_most(s2),
            self.mapped_back(ar, s1, z1),
            self.mapped_back(ar, s2, z2),
        ensures
            z1.at_most(z2),
    {
        self.lemma_values_ascend();
        let v = self.values();
        let x = self.scores();
        lemma_lookup_stays(ar, x, v, s1, z1);
        lemma_lookup_stays(ar, x, v, s2, z2);
        if !s1.at_most(x[0]) && !x.last().at_most(s2) {
            let i = lemma_lookup_between(ar, x, v, s1, z1);
            let j = lemma_lookup_between(ar, x, v, s2, z2);
            if i < j {
                assert(v[i].at_most(v[j - 1]) || i == j - 1);
            } else if i > j {
                assert(x[j].at_most(x[i - 1]) || j == i - 1);
            }
        }
    }

    /// A knot is mapped to its score, and its score back to it, for an arithmetic whose
    /// lines meet their ends.
    pub proof fn knots_map_back<F: Fn(Op, Double, Double) -> Double>(
        &self,
        ar: Arithmetic<F>,
        g: int,
        v: Double,
        s: Double,
        z: Double,
    )
        requires
            self.well_formed(),
            strictly_ascending(self.scores()),
            lines_meet_ends(ar),
            0 <= g < self.values().len(),
            v.equals(self.values()[g]),
            self.scored(ar, v, s),
            self.mapped_back(ar, s, z),
        ensures
            s == self.scores()[g],
            z == self.values()[g],
    {
        lemma_knot_lookup(ar, self.values(), self.scores(), g, v, s);
        let x = self.scores();
        assert(!x[g].nan());
        if 0 < g {
            assert(x[0].below(x[g]));
        }
        if g < x.len() - 1 {
            assert(x[g].below(x[x.len() - 1]));
        }
        lemma_knot_lookup(ar, x, self.values(), g, s, z);
    }
}

proof fn lemma_knot_lookup<F: Fn(Op, Double, Double) -> Double>(
    ar: Arithmetic<F>,
    xs: Seq<Double>,
    ys: Seq<Double>,
    g: int,
    x: Double,
    y: Double,
)
    requires
        strictly_ascending(xs),
        ys.len() == xs.len(),
        lines_meet_ends(ar),
        0 <= g < xs.len(),
        x.equals(xs[g]),
        looked_up(ar, xs, ys, x, y),
    ensures
        y == ys[g],
{
    let n = xs.len() as int;
    assert(!xs[g].nan());
    if g > 0 {
        assert(xs[0].below(xs[g]));
        if g < n - 1 {
            assert(xs[g].below(xs[n - 1]));
            let hi = choose|hi: int|
                0 < hi < xs.len() && (#[trigger] xs[hi - 1]).below(x) && x.at_most(xs[hi]) && y
                    == between(ar, xs[hi - 1], xs[hi], ys[hi - 1], ys[hi], x);
            if hi < g {
                assert(xs[hi].below(xs[g]));
            } else if hi > g {
                if hi - 1 > g {
                    assert(xs[g].below(xs[hi - 1]));
                }
            }
            assert(hi == g);
        }
    }
}

/// A value between two knots lies on the line between them.
proof fn lemma_lookup_between<F: Fn(Op, Double, Double) -> Double>(
    ar: Arithmetic<F>,
    xs: Seq<Double>,
    ys: Seq<Double>,
    x: Double,
    y: Double,
) -> (hi: int)
    requires
        0 < xs.len() == ys.len(),
        keeps_order(ar),
        ascends(xs),
        ascends(ys),
        looked_up(ar, xs, ys, x, y),
        !x.at_most(xs[0]),
        !xs.last().at_most(x),
    ensures
        0 < hi < xs.len(),
        xs[hi - 1].below(x),
        x.at_most(xs[hi]),
        y == between(ar, xs[hi - 1], xs[hi], ys[hi - 1], ys[hi], x),
        ys[hi - 1].at_most(y),
        y.at_most(ys[hi]),
{
    let hi = choose|hi: int|
        0 < hi < xs.len() && (#[trigger] xs[hi - 1]).below(x) && x.at_most(xs[hi]) && y
            == between(ar, xs[hi - 1], xs[hi], ys[hi - 1], ys[hi], x);
    let p = ar.over(ar.minus(x, xs[hi - 1]), ar.minus(xs[hi], xs[hi - 1]));
    assert(ar.minus(xs[hi], xs[hi - 1]).positive());
    assert(crate::ccdf::in_unit(p));
    assert(ys[hi - 1].at_most(ys[hi]));
    assert(y == ar.plus(ys[hi - 1], ar.times(p, ar.minus(ys[hi], ys[hi - 1]))));
    hi
}

/// A value looked up lies between the ends of the table.
proof fn lemma_lookup_stays<F: Fn(Op, Double, Double) -> Double>(
    ar: Arithmetic<F>,
    xs: Seq<Double>,
    ys: Seq<Double>,
    x: Double,
    y: Double,
)
    requires
        0 < xs.len() == ys.len(),
        keeps_order(ar),
        ascends(xs),
        ascends(ys),
        !x.nan(),
        looked_up(ar, xs, ys, x, y),
    ensures
        ys[0].at_most(y),
        y.at_most(ys.last()),
{
    let n = ys.len() as int;
    assert(!ys[0].nan());
    assert(!ys[n - 1].nan());
    if n > 1 {
        assert(ys[0].at_most(ys[n - 1]));
    }
    if !x.at_most(xs[0]) && !xs.last().at_most(x) {
        let hi = lemma_lookup_between(ar, xs, ys, x, y);
        assert(ys[0].at_most(ys[hi - 1]) || hi == 1);
        assert(ys[hi].at_most(ys[n - 1]) || hi == n - 1);
    }
}

/// The group of ties that holds a position.
proof fn lemma_group_of(cuts: Seq<int>, a: int, m: int) -> (g: int)
    requires
        0 < m < cuts.len(),
        cuts[0] <= a < cuts[m],
        forall|g: int, h: int| 0 <= g < h < cuts.len() ==> (#[trigger] cuts[g]) < (#[trigger] cuts[h]),
    ensures
        0 <= g < m,
        cuts[g] <= a < cuts[g + 1],
    decreases m,
{
    if cuts[m - 1] <= a {
        m - 1
    } else {
        lemma_group_of(cuts, a, m - 1)
    }
}

/// The data are mapped to scores and back to themselves, for an arithmetic whose lines
/// meet their ends and that tells the scores apart.
pub proof fn data_map_back<F: Fn(Op, Double, Double) -> Double>(
    ar: Arithmetic<F>,
    ns: NormalScore,
    values: Seq<Double>,
    weights: Seq<Double>,
    i: int,
    s: Double,
    z: Double,
)
    requires
        values.len() <= usize::MAX,
        finite_values(values),
        ns.well_formed(),
        fitted(ar, ns, values, weights),
        strictly_ascending(ns.scores()),
        lines_meet_ends(ar),
        0 <= i < values.len(),
        ns.scored(ar, values[i], s),
        ns.mapped_back(ar, s, z),
    ensures
        z.equals(values[i]),
{
    let (order, cuts) = choose|order: Seq<usize>, cuts: Seq<int>| #[trigger]
        fits_with(ar, ns, values, weights, order, cuts);
    let sorted = arranged(values, order);
    assert(order.contains(i as usize));
    let a = choose|a: int| 0 <= a < order.len() && order[a] == i as usize;
    assert(sorted[a] == values[i]);
    let m = cuts.len() - 1;
    assert(ns.values().len() == m);
    let g = lemma_group_of(cuts, a, m);
    let h = g + 1;
    assert(cuts[g] <= a < cuts[h]);
    assert(sorted[a].equals(sorted[cuts[g]]));
    assert(ns.values()[g] == sorted[cuts[g]]);
    ns.knots_map_back(ar, g, values[i], s, z);
}

/// The ends of a fitted table are the least and the greatest of the data.
pub proof fn fitted_ends<F: Fn(Op, Double, Double) -> Double>(
    ar: Arithmetic<F>,
    ns: NormalScore,
    values: Seq<Double>,
    weights: Seq<Double>,
    lo: Double,
    hi: Double,
)
    requires
        2 <= values.len() <= usize::MAX,
        finite_values(values),
        fitted(ar, ns, values, weights),
    ensures
        smallest(values, lo) ==> ns.values()[0].equals(lo),
        largest(values, hi) ==> ns.values().last().equals(hi),
{
    let (order, cuts) = choose|order: Seq<usize>, cuts: Seq<int>| #[trigger]
        fits_with(ar, ns, values, weights, order, cuts);
    let sorted = arranged(values, order);
    lemma_knots_ascend(values, order, sorted, cuts, ns.values());
}

} // verus!

//! Marginal transport maps: monotone warpings of the data axis that make the
//! data nearly Gaussian, fitted by maximum likelihood.

use vstd::prelude::*;

use crate::arith::{num, Arithmetic, Op, HALF, LEAST, TWO};
use crate::double::{Double, HIDDEN, INFINITE, ONE};
use crate::error::{insufficient, invalid, invalid_parameter, too_little, GeostatError};
use crate::optim::{computes, minimize, simplex_minimum, Objective};

verus! {

/// Bit pattern of the logarithm of the standard normal density at zero.
pub const LN_NORM_CONST: u64 = 0xBFED_67F1_C864_BEB4;

/// Bit pattern of the power below which a power is taken to be a logarithm.
pub const NO_POWER: u64 = 0x3E11_2E0B_E826_D695;

/// Bit pattern of the part of the range that the least shifted value is.
pub const SHIFT_PART: u64 = 0x3F50_624D_D2F1_A9FC;

/// Bit pattern of the least tail weight.
pub const LEAST_TAIL: u64 = 0x3F50_624D_D2F1_A9FC;

/// Bit pattern of the first step of the fits.
pub const FIT_STEP: u64 = 0x3FD3_3333_3333_3333;

/// Iterations of a fit of one parameter.
pub const FIT_ROUNDS: usize = 500;

/// Iterations of a fit of two parameters.
pub const FIT_ROUNDS_TWO: usize = 800;

/// A monotone marginal transport map.
pub trait MarginalTransport<F: Fn(Op, Double, Double) -> Double> {
    /// Latent value of a data value.
    spec fn warped(&self, ar: Arithmetic<F>, z: Double) -> Double;

    /// Data value of a latent value.
    spec fn unwarped(&self, ar: Arithmetic<F>, y: Double) -> Double;

    /// Logarithm of the slope at a data value.
    spec fn log_slope(&self, ar: Arithmetic<F>, z: Double) -> Double;

    /// Maps a data value to the latent (Gaussian) axis.
    fn forward(&self, z: Double, ar: &Arithmetic<F>) -> (y: Double)
        requires
            ar.total(),
        ensures
            y == self.warped(*ar, z),
    ;

    /// Maps a latent value back to data units.
    fn inverse(&self, y: Double, ar: &Arithmetic<F>) -> (z: Double)
        requires
            ar.total(),
        ensures
            z == self.unwarped(*ar, y),
    ;

    /// Logarithm of the slope of the forward map.
    fn log_grad(&self, z: Double, ar: &Arithmetic<F>) -> (g: Double)
        requires
            ar.total(),
        ensures
            g == self.log_slope(*ar, z),
    ;
}

/// Identity transform: no warping.
#[derive(Debug, Clone, Copy, PartialEq, Eq, Structural)]
pub struct Identity;

impl<F: Fn(Op, Double, Double) -> Double> MarginalTransport<F> for Identity {
    open spec fn warped(&self, ar: Arithmetic<F>, z: Double) -> Double {
        z
    }

    open spec fn unwarped(&self, ar: Arithmetic<F>, y: Double) -> Double {
        y
    }

    open spec fn log_slope(&self, ar: Arithmetic<F>, z: Double) -> Double {
        num(0)
    }

    fn forward(&self, z: Double, ar: &Arithmetic<F>) -> (y: Double) {
        z
    }

    fn inverse(&self, y: Double, ar: &Arithmetic<F>) -> (z: Double) {
        y
    }

    fn log_grad(&self, z: Double, ar: &Arithmetic<F>) -> (g: Double) {
        Double::zero()
    }
}

/// The identity gives back what it is given, both ways.
pub proof fn identity_round_trip<F: Fn(Op, Double, Double) -> Double>(ar: Arithmetic<F>, z: Double)
    ensures
        Identity.unwarped(ar, Identity.warped(ar, z)) == z,
        Identity.warped(ar, Identity.unwarped(ar, z)) == z,
{
}

/// Box-Cox power transform with a shift: `((z + s)^lambda - 1) / lambda`, the
/// logarithm of `z + s` at `lambda = 0`. The shifted value must be positive.
#[derive(Debug, Clone, Copy, PartialEq, Eq, Structural)]
pub struct BoxCox {
    /// Power parameter.
    pub lambda: Double,
    /// Shift applied before the power.
    pub shift: Double,
}

impl<F: Fn(Op, Double, Double) -> Double> MarginalTransport<F> for BoxCox {
    open spec fn warped(&self, ar: Arithmetic<F>, z: Double) -> Double {
        let u = ar.plus(z, self.shift);
        if self.lambda.abs().lt(num(NO_POWER)) {
            ar.ln(u)
        } else {
            ar.over(ar.minus(ar.pow(u, self.lambda), num(ONE)), self.lambda)
        }
    }

    open spec fn unwarped(&self, ar: Arithmetic<F>, y: Double) -> Double {
        if self.lambda.abs().lt(num(NO_POWER)) {
            ar.minus(ar.exp(y), self.shift)
        } else {
            ar.minus(
                ar.pow(
                    ar.plus(ar.times(self.lambda, y), num(ONE)).max(num(0)),
                    ar.over(num(ONE), self.lambda),
                ),
                self.shift,
            )
        }
    }

    open spec fn log_slope(&self, ar: Arithmetic<F>, z: Double) -> Double {
        ar.times(ar.minus(self.lambda, num(ONE)), ar.ln(ar.plus(z, self.shift)))
    }

    fn forward(&self, z: Double, ar: &Arithmetic<F>) -> (y: Double) {
        let u: Double = ar.plus(z, self.shift);
        if self.lambda.abs().lt(num(NO_POWER)) {
            ar.ln(u)
        } else {
            ar.over(ar.minus(ar.pow(u, self.lambda), num(ONE)), self.lambda)
        }
    }

    fn inverse(&self, y: Double, ar: &Arithmetic<F>) -> (z: Double) {
        if self.lambda.abs().lt(num(NO_POWER)) {
            ar.minus(ar.exp(y), self.shift)
        } else {
            ar.minus(
                ar.pow(
                    ar.plus(ar.times(self.lambda, y), num(ONE)).max(Double::zero()),
                    ar.over(num(ONE), self.lambda),
                ),
                self.shift,
            )
        }
    }

    fn log_grad(&self, z: Double, ar: &Arithmetic<F>) -> (g: Double) {
        ar.times(ar.minus(self.lambda, num(ONE)), ar.ln(ar.plus(z, self.shift)))
    }
}

/// At power zero, Box-Cox is the logarithm of the shifted value.
pub proof fn box_cox_of_zero_is_the_logarithm<F: Fn(Op, Double, Double) -> Double>(
    ar: Arithmetic<F>,
    shift: Double,
    z: Double,
)
    ensures
        (BoxCox { lambda: num(0), shift }).warped(ar, z) == ar.ln(ar.plus(z, shift)),
{
}

/// Yeo-Johnson transform: a power transform of the whole real line.
#[derive(Debug, Clone, Copy, PartialEq, Eq, Structural)]
pub struct YeoJohnson {
    /// Power parameter.
    pub lambda: Double,
}

impl<F: Fn(Op, Double, Double) -> Double> MarginalTransport<F> for YeoJohnson {
    open spec fn warped(&self, ar: Arithmetic<F>, z: Double) -> Double {
        let l = self.lambda;
        let rest = ar.minus(num(TWO), l);
        if num(0).le(z) {
            let u = ar.plus(z, num(ONE));
            if l.abs().lt(num(NO_POWER)) {
                ar.ln(u)
            } else {
                ar.over(ar.minus(ar.pow(u, l), num(ONE)), l)
            }
        } else {
            let u = ar.plus(z.neg(), num(ONE));
            if ar.minus(l, num(TWO)).abs().lt(num(NO_POWER)) {
                ar.ln(u).neg()
            } else {
                ar.over(ar.minus(ar.pow(u, rest), num(ONE)).neg(), rest)
            }
        }
    }

    open spec fn unwarped(&self, ar: Arithmetic<F>, y: Double) -> Double {
        let l = self.lambda;
        let rest = ar.minus(num(TWO), l);
        if num(0).le(y) {
            if l.abs().lt(num(NO_POWER)) {
                ar.minus(ar.exp(y), num(ONE))
            } else {
                ar.minus(
                    ar.pow(
                        ar.plus(ar.times(l, y), num(ONE)).max(num(0)),
                        ar.over(num(ONE), l),
                    ),
                    num(ONE),
                )
            }
        } else if ar.minus(l, num(TWO)).abs().lt(num(NO_POWER)) {
            ar.minus(num(ONE), ar.exp(y.neg()))
        } else {
            ar.minus(
                num(ONE),
                ar.pow(
                    ar.plus(ar.times(rest, y.neg()), num(ONE)).max(num(0)),
                    ar.over(num(ONE), rest),
                ),
            )
        }
    }

    open spec fn log_slope(&self, ar: Arithmetic<F>, z: Double) -> Double {
        if num(0).le(z) {
            ar.times(ar.minus(self.lambda, num(ONE)), ar.ln(ar.plus(z, num(ONE))))
        } else {
            ar.times(ar.minus(num(ONE), self.lambda), ar.ln(ar.plus(z.neg(), num(ONE))))
        }
    }

    fn forward(&self, z: Double, ar: &Arithmetic<F>) -> (y: Double) {
        let l: Double = self.lambda;
        if Double::zero().le(z) {
            let u: Double = ar.plus(z, num(ONE));
            if l.abs().lt(num(NO_POWER)) {
                ar.ln(u)
            } else {
                ar.over(ar.minus(ar.pow(u, l), num(ONE)), l)
            }
        } else {
            let u: Double = ar.plus(z.neg(), num(ONE));
            if ar.minus(l, num(TWO)).abs().lt(num(NO_POWER)) {
                ar.ln(u).neg()
            } else {
                let rest: Double = ar.minus(num(TWO), l);
                ar.over(ar.minus(ar.pow(u, rest), num(ONE)).neg(), rest)
            }
        }
    }

    fn inverse(&self, y: Double, ar: &Arithmetic<F>) -> (z: Double) {
        let l: Double = self.lambda;
        if Double::zero().le(y) {
            if l.abs().lt(num(NO_POWER)) {
                ar.minus(ar.exp(y), num(ONE))
            } else {
                ar.minus(
                    ar.pow(
                        ar.plus(ar.times(l, y), num(ONE)).max(Double::zero()),
                        ar.over(num(ONE), l),
                    ),
                    num(ONE),
                )
            }
        } else if ar.minus(l, num(TWO)).abs().lt(num(NO_POWER)) {
            ar.minus(num(ONE), ar.exp(y.neg()))
        } else {
            let rest: Double = ar.minus(num(TWO), l);
            ar.minus(
                num(ONE),
                ar.pow(
                    ar.plus(ar.times(rest, y.neg()), num(ONE)).max(Double::zero()),
                    ar.over(num(ONE), rest),
                ),
            )
        }
    }

    fn log_grad(&self, z: Double, ar: &Arithmetic<F>) -> (g: Double) {
        if Double::zero().le(z) {
            ar.times(ar.minus(self.lambda, num(ONE)), ar.ln(ar.plus(z, num(ONE))))
        } else {
            ar.times(ar.minus(num(ONE), self.lambda), ar.ln(ar.plus(z.neg(), num(ONE))))
        }
    }
}

/// Sinh-arcsinh transform `sinh(delta asinh(u) - epsilon)` of standardized data
/// `u = (z - loc) / scale`.
#[derive(Debug, Clone, Copy, PartialEq, Eq, Structural)]
pub struct SinhArcsinh {
    /// Skewness parameter.
    pub epsilon: Double,
    /// Tail-weight parameter, positive.
    pub delta: Double,
    /// Location.
    pub loc: Double,
    /// Scale, positive.
    pub scale: Double,
}

impl SinhArcsinh {
    /// Argument of the hyperbolic sine for a standardized value.
    pub open spec fn bent<F: Fn(Op, Double, Double) -> Double>(
        &self,
        ar: Arithmetic<F>,
        u: Double,
    ) -> Double {
        ar.minus(ar.times(self.delta, ar.asinh(u)), self.epsilon)
    }
}

impl<F: Fn(Op, Double, Double) -> Double> MarginalTransport<F> for SinhArcsinh {
    open spec fn warped(&self, ar: Arithmetic<F>, z: Double) -> Double {
        ar.sinh(self.bent(ar, ar.over(ar.minus(z, self.loc), self.scale)))
    }

    open spec fn unwarped(&self, ar: Arithmetic<F>, y: Double) -> Double {
        let u = ar.sinh(ar.over(ar.plus(ar.asinh(y), self.epsilon), self.delta));
        ar.plus(ar.times(u, self.scale), self.loc)
    }

    open spec fn log_slope(&self, ar: Arithmetic<F>, z: Double) -> Double {
        let u = ar.over(ar.minus(z, self.loc), self.scale);
        ar.minus(
            ar.minus(
                ar.plus(ar.ln(ar.cosh(self.bent(ar, u))), ar.ln(self.delta)),
                ar.times(num(HALF), ar.ln(ar.plus(num(ONE), ar.times(u, u)))),
            ),
            ar.ln(self.scale),
        )
    }

    fn forward(&self, z: Double, ar: &Arithmetic<F>) -> (y: Double) {
        let u: Double = ar.over(ar.minus(z, self.loc), self.scale);
        ar.sinh(ar.minus(ar.times(self.delta, ar.asinh(u)), self.epsilon))
    }

    fn inverse(&self, y: Double, ar: &Arithmetic<F>) -> (z: Double) {
        let u: Double = ar.sinh(ar.over(ar.plus(ar.asinh(y), self.epsilon), self.delta));
        ar.plus(ar.times(u, self.scale), self.loc)
    }

    fn log_grad(&self, z: Double, ar: &Arithmetic<F>) -> (g: Double) {
        let u: Double = ar.over(ar.minus(z, self.loc), self.scale);
        let inner: Double = ar.minus(ar.times(self.delta, ar.asinh(u)), self.epsilon);
        ar.minus(
            ar.minus(
                ar.plus(ar.ln(ar.cosh(inner)), ar.ln(self.delta)),
                ar.times(num(HALF), ar.ln(ar.plus(num(ONE), ar.times(u, u)))),
            ),
            ar.ln(self.scale),
        )
    }
}

/// A fitted transform with the mean and standard deviation of the warped data,
/// which standardize it.
#[derive(Debug)]
pub struct FittedMarginal<T> {
    transform: T,
    latent_mean: Double,
    latent_std: Double,
}

impl<T> FittedMarginal<T> {
    /// The transform.
    pub closed spec fn map(&self) -> T {
        self.transform
    }

    /// Mean of the warped data.
    pub closed spec fn mean(&self) -> Double {
        self.latent_mean
    }

    /// Standard deviation of the warped data.
    pub closed spec fn deviation(&self) -> Double {
        self.latent_std
    }

    /// Standardized latent value.
    pub open spec fn latent<F: Fn(Op, Double, Double) -> Double>(
        &self,
        ar: Arithmetic<F>,
        z: Double,
    ) -> Double where
        T: MarginalTransport<F>,
     {
        ar.over(ar.minus(self.map().warped(ar, z), self.mean()), self.deviation())
    }

    /// Data value of a standardized latent value.
    pub open spec fn data<F: Fn(Op, Double, Double) -> Double>(
        &self,
        ar: Arithmetic<F>,
        y: Double,
    ) -> Double where
        T: MarginalTransport<F>,
     {
        self.map().unwarped(ar, ar.plus(ar.times(y, self.deviation()), self.mean()))
    }

    /// Builds a fitted marginal from a transform and an explicit standardizer.
    pub fn new(transform: T, latent_mean: Double, latent_std: Double) -> (r: Result<Self, GeostatError>)
        ensures
            match r {
                Ok(m) => {
                    &&& latent_std.is_positive() && latent_mean.is_finite()
                    &&& m.map() == transform
                    &&& m.mean() == latent_mean
                    &&& m.deviation() == latent_std
                },
                Err(e) => {
                    &&& !(latent_std.is_positive() && latent_mean.is_finite())
                    &&& invalid(e, "latent_std must be positive and latent_mean finite"@)
                },
            },
    {
        if !latent_std.is_positive() || !latent_mean.is_finite() {
            return Err(invalid_parameter("latent_std must be positive and latent_mean finite"));
        }
        Ok(FittedMarginal { transform, latent_mean, latent_std })
    }

    /// Standardized latent value, a standard Gaussian score under a good fit.
    pub fn to_latent<F: Fn(Op, Double, Double) -> Double>(
        &self,
        z: Double,
        ar: &Arithmetic<F>,
    ) -> (y: Double) where
        T: MarginalTransport<F>,

        requires
            ar.total(),
        ensures
            y == self.latent(*ar, z),
    {
        ar.over(ar.minus(self.transform.forward(z, ar), self.latent_mean), self.latent_std)
    }

    /// Transforms a standardized latent value back to data units.
    pub fn to_data<F: Fn(Op, Double, Double) -> Double>(
        &self,
        y: Double,
        ar: &Arithmetic<F>,
    ) -> (z: Double) where
        T: MarginalTransport<F>,

        requires
            ar.total(),
        ensures
            z == self.data(*ar, y),
    {
        self.transform.inverse(ar.plus(ar.times(y, self.latent_std), self.latent_mean), ar)
    }

    /// The underlying transform.
    pub fn transform(&self) -> (t: &T)
        ensures
            *t == self.map(),
    {
        &self.transform
    }

    /// Mean of the warped data.
    pub fn latent_mean(&self) -> (m: Double)
        ensures
            m == self.mean(),
    {
        self.latent_mean
    }

    /// Standard deviation of the warped data.
    pub fn latent_std(&self) -> (s: Double)
        ensures
            s == self.deviation(),
    {
        self.latent_std
    }
}

/// Warped data.
pub open spec fn warped_data<F: Fn(Op, Double, Double) -> Double, T: MarginalTransport<F>>(
    ar: Arithmetic<F>,
    t: T,
    data: Seq<Double>,
) -> Seq<Double> {
    Seq::new(data.len(), |i: int| t.warped(ar, data[i]))
}

/// Squared deviations from `mean`.
pub open spec fn deviations<F: Fn(Op, Double, Double) -> Double>(
    ar: Arithmetic<F>,
    xs: Seq<Double>,
    mean: Double,
) -> Seq<Double> {
    Seq::new(xs.len(), |i: int| ar.square(ar.minus(xs[i], mean)))
}

/// Variance about the mean.
pub open spec fn variance_of<F: Fn(Op, Double, Double) -> Double>(
    ar: Arithmetic<F>,
    xs: Seq<Double>,
) -> Double {
    ar.average_of(deviations(ar, xs, ar.average_of(xs)))
}

/// The values are finite.
pub open spec fn all_finite(xs: Seq<Double>) -> bool {
    forall|i: int| 0 <= i < xs.len() ==> (#[trigger] xs[i]).is_finite()
}

/// Log slopes at the data.
pub open spec fn slopes_at<F: Fn(Op, Double, Double) -> Double, T: MarginalTransport<F>>(
    ar: Arithmetic<F>,
    t: T,
    data: Seq<Double>,
) -> Seq<Double> {
    Seq::new(data.len(), |i: int| t.log_slope(ar, data[i]))
}

/// Negated log-likelihood over the first `n` data, with mean and standard
/// deviation of the warped data.
pub open spec fn loss_sum<F: Fn(Op, Double, Double) -> Double, T: MarginalTransport<F>>(
    ar: Arithmetic<F>,
    t: T,
    data: Seq<Double>,
    mean: Double,
    std: Double,
    n: int,
) -> Double
    decreases n,
{
    if n <= 0 {
        num(0)
    } else {
        let s = ar.over(ar.minus(t.warped(ar, data[n - 1]), mean), std);
        let log_density = ar.minus(
            ar.minus(num(LN_NORM_CONST), ar.ln(std)),
            ar.times(ar.times(num(HALF), s), s),
        );
        ar.minus(
            loss_sum(ar, t, data, mean, std, n - 1),
            ar.plus(log_density, t.log_slope(ar, data[n - 1])),
        )
    }
}

/// Negative log-likelihood of the data under a transform; infinite where the
/// warped data or the slopes are not finite or do not vary.
pub open spec fn loss<F: Fn(Op, Double, Double) -> Double, T: MarginalTransport<F>>(
    ar: Arithmetic<F>,
    t: T,
    data: Seq<Double>,
) -> Double {
    let w = warped_data(ar, t, data);
    let var = variance_of(ar, w);
    if !all_finite(w) || !var.is_positive() || !all_finite(slopes_at(ar, t, data)) {
        num(INFINITE)
    } else {
        loss_sum(ar, t, data, ar.average_of(w), ar.sqrt(var), data.len() as int)
    }
}

/// Mean and standard deviation of the warped data.
pub open spec fn standardized<F: Fn(Op, Double, Double) -> Double, T: MarginalTransport<F>>(
    ar: Arithmetic<F>,
    t: T,
    data: Seq<Double>,
) -> (
    Double,
    Double,
) {
    let w = warped_data(ar, t, data);
    (ar.average_of(w), ar.sqrt(variance_of(ar, w)).max(num(LEAST)))
}

fn warp_all<F: Fn(Op, Double, Double) -> Double, T: MarginalTransport<F>>(
    t: &T,
    data: &Vec<Double>,
    ar: &Arithmetic<F>,
) -> (w: Vec<Double>)
    requires
        ar.total(),
    ensures
        w@ == warped_data(*ar, *t, data@),
{
    let mut w: Vec<Double> = Vec::new();
    for i in 0..data.len()
        invariant
            ar.total(),
            w@ =~= warped_data(*ar, *t, data@).take(i as int),
    {
        w.push(t.forward(data[i], ar));
    }
    assert(w@ =~= warped_data(*ar, *t, data@));
    w
}

/// Variance about the mean.
pub fn find_variance<F: Fn(Op, Double, Double) -> Double>(
    xs: &Vec<Double>,
    mean: Double,
    ar: &Arithmetic<F>,
) -> (v: Double)
    requires
        ar.total(),
        xs@.len() < 2 * HIDDEN,
        mean == ar.average_of(xs@),
    ensures
        v == variance_of(*ar, xs@),
{
    let mut ds: Vec<Double> = Vec::new();
    for i in 0..xs.len()
        invariant
            ar.total(),
            ds@ =~= deviations(*ar, xs@, mean).take(i as int),
    {
        ds.push(ar.square(ar.minus(xs[i], mean)));
    }
    assert(ds@ =~= deviations(*ar, xs@, mean));
    ar.mean(&ds)
}

fn are_finite(xs: &Vec<Double>) -> (b: bool)
    ensures
        b == all_finite(xs@),
{
    for i in 0..xs.len()
        invariant
            forall|k: int| 0 <= k < i ==> (#[trigger] xs@[k]).is_finite(),
    {
        if !xs[i].is_finite() {
            assert(!xs@[i as int].is_finite());
            return false;
        }
    }
    true
}

/// Negative log-likelihood of the data under a transform, with the empirical
/// mean and variance of the warped data. Lower means a more Gaussian sample.
pub fn neg_log_likelihood<F: Fn(Op, Double, Double) -> Double, T: MarginalTransport<F>>(
    t: &T,
    data: &Vec<Double>,
    ar: &Arithmetic<F>,
) -> (r: Double)
    requires
        ar.total(),
        data@.len() < 2 * HIDDEN,
    ensures
        r == loss(*ar, *t, data@),
{
    let w: Vec<Double> = warp_all(t, data, ar);
    if !are_finite(&w) {
        return Double::infinity();
    }
    let mean: Double = ar.mean(&w);
    let var: Double = find_variance(&w, mean, ar);
    if !var.is_positive() {
        return Double::infinity();
    }
    let std: Double = ar.sqrt(var);
    let mut nll: Double = Double::zero();
    for i in 0..data.len()
        invariant
            ar.total(),
            w@ == warped_data(*ar, *t, data@),
            all_finite(w@),
            var == variance_of(*ar, w@),
            var.is_positive(),
            forall|k: int| 0 <= k < i ==> (#[trigger] slopes_at(*ar, *t, data@)[k]).is_finite(),
            nll == loss_sum(*ar, *t, data@, mean, std, i as int),
    {
        let s: Double = ar.over(ar.minus(w[i], mean), std);
        let log_density: Double = ar.minus(
            ar.minus(num(LN_NORM_CONST), ar.ln(std)),
            ar.times(ar.times(num(HALF), s), s),
        );
        let lg: Double = t.log_grad(data[i], ar);
        if !lg.is_finite() {
            assert(!slopes_at(*ar, *t, data@)[i as int].is_finite());
            return Double::infinity();
        }
        nll = ar.minus(nll, ar.plus(log_density, lg));
    }
    nll
}

fn standardizer<F: Fn(Op, Double, Double) -> Double, T: MarginalTransport<F>>(
    t: &T,
    data: &Vec<Double>,
    ar: &Arithmetic<F>,
) -> (r: (
    Double,
    Double,
))
    requires
        ar.total(),
        data@.len() < 2 * HIDDEN,
    ensures
        r == standardized(*ar, *t, data@),
{
    let w: Vec<Double> = warp_all(t, data, ar);
    let mean: Double = ar.mean(&w);
    let var: Double = find_variance(&w, mean, ar);
    (mean, ar.sqrt(var).max(num(LEAST)))
}

/// A marginal of this transform, standardized on the data.
pub open spec fn fits<F: Fn(Op, Double, Double) -> Double, T: MarginalTransport<F>>(
    ar: Arithmetic<F>,
    t: T,
    data: Seq<Double>,
    m: FittedMarginal<T>,
) -> bool {
    m.map() == t && (m.mean(), m.deviation()) == standardized(ar, t, data)
}

/// Least of the values, by comparison.
pub open spec fn least_of(xs: Seq<Double>) -> Double
    decreases xs.len(),
{
    if xs.len() == 0 {
        num(INFINITE)
    } else {
        least_of(xs.drop_last()).min(xs.last())
    }
}

/// Greatest of the values, by comparison.
pub open spec fn greatest_of(xs: Seq<Double>) -> Double
    decreases xs.len(),
{
    if xs.len() == 0 {
        num(INFINITE).neg()
    } else {
        greatest_of(xs.drop_last()).max(xs.last())
    }
}

/// Shift that makes the data positive: none where they are.
pub open spec fn shift_for<F: Fn(Op, Double, Double) -> Double>(
    ar: Arithmetic<F>,
    data: Seq<Double>,
) -> Double {
    let min = least_of(data);
    let range = ar.minus(greatest_of(data), min).max(num(LEAST));
    if min.is_positive() {
        num(0)
    } else {
        ar.minus(ar.times(num(SHIFT_PART), range), min)
    }
}

/// Loss of a Box-Cox transform as a function of its power.
pub open spec fn box_cox_loss<F: Fn(Op, Double, Double) -> Double>(
    ar: Arithmetic<F>,
    shift: Double,
    data: Seq<Double>,
) -> Objective {
    |p: Seq<Double>| loss(ar, BoxCox { lambda: p[0], shift }, data)
}

/// The fitted Box-Cox transform.
pub open spec fn fitted_box_cox<F: Fn(Op, Double, Double) -> Double>(
    ar: Arithmetic<F>,
    data: Seq<Double>,
) -> BoxCox {
    let shift = shift_for(ar, data);
    let best = simplex_minimum(
        ar,
        box_cox_loss(ar, shift, data),
        seq![num(HALF)],
        num(FIT_STEP),
        FIT_ROUNDS as nat,
    );
    BoxCox { lambda: best.0[0], shift }
}

/// What a fit gives: too few data, or the transform standardized on them.
pub open spec fn fit_outcome<F: Fn(Op, Double, Double) -> Double, T: MarginalTransport<F>>(
    ar: Arithmetic<F>,
    data: Seq<Double>,
    least: nat,
    text: Seq<char>,
    t: T,
    r: Result<FittedMarginal<T>, GeostatError>,
) -> bool {
    if data.len() < least {
        r matches Err(e) && insufficient(e, text)
    } else {
        r matches Ok(m) && fits(ar, t, data, m)
    }
}

fn one_number(x: Double) -> (v: Vec<Double>)
    ensures
        v@ == seq![x],
{
    let mut v: Vec<Double> = Vec::new();
    v.push(x);
    assert(v@ =~= seq![x]);
    v
}

/// Fits a Box-Cox transform by maximum likelihood. The shift is fixed so that
/// the least shifted value is a small positive part of the range; only the power
/// is optimized.
pub fn fit_box_cox<F: Fn(Op, Double, Double) -> Double>(data: &Vec<Double>, ar: &Arithmetic<F>) -> (r: Result<
    FittedMarginal<BoxCox>,
    GeostatError,
>)
    requires
        ar.total(),
        data@.len() < 2 * HIDDEN,
    ensures
        fit_outcome(
            *ar,
            data@,
            3,
            "marginal fitting needs at least 3 values"@,
            fitted_box_cox(*ar, data@),
            r,
        ),
{
    if data.len() < 3 {
        return Err(too_little("marginal fitting needs at least 3 values"));
    }
    let mut min: Double = Double::infinity();
    let mut max: Double = Double::infinity().neg();
    for i in 0..data.len()
        invariant
            min == least_of(data@.take(i as int)),
            max == greatest_of(data@.take(i as int)),
    {
        assert(data@.take(i + 1).drop_last() =~= data@.take(i as int));
        min = min.min(data[i]);
        max = max.max(data[i]);
    }
    assert(data@.take(data.len() as int) =~= data@);
    let range: Double = ar.minus(max, min).max(num(LEAST));
    let shift: Double = if min.is_positive() {
        Double::zero()
    } else {
        ar.minus(ar.times(num(SHIFT_PART), range), min)
    };
    let ghost obj = box_cox_loss(*ar, shift, data@);
    let f = |p: &Vec<Double>| -> (v: Double)
        requires
            p@.len() == 1,
            data@.len() < 2 * HIDDEN,
            ar.total(),
        ensures
            v == loss(*ar, BoxCox { lambda: p@[0], shift }, data@),
        { neg_log_likelihood(&BoxCox { lambda: p[0], shift }, data, ar) };
    let start: Vec<Double> = one_number(num(HALF));
    assert(computes(f, 1, obj));
    let (best, _value): (Vec<Double>, Double) = minimize(
        &f,
        &start,
        num(FIT_STEP),
        FIT_ROUNDS,
        ar,
        Ghost(obj),
    );
    let transform: BoxCox = BoxCox { lambda: best[0], shift };
    assert(transform == fitted_box_cox(*ar, data@));
    let (latent_mean, latent_std): (Double, Double) = standardizer(&transform, data, ar);
    Ok(FittedMarginal { transform, latent_mean, latent_std })
}

/// Loss of a Yeo-Johnson transform as a function of its power.
pub open spec fn yeo_johnson_loss<F: Fn(Op, Double, Double) -> Double>(
    ar: Arithmetic<F>,
    data: Seq<Double>,
) -> Objective {
    |p: Seq<Double>| loss(ar, YeoJohnson { lambda: p[0] }, data)
}

/// The fitted Yeo-Johnson transform.
pub open spec fn fitted_yeo_johnson<F: Fn(Op, Double, Double) -> Double>(
    ar: Arithmetic<F>,
    data: Seq<Double>,
) -> YeoJohnson {
    let best = simplex_minimum(
        ar,
        yeo_johnson_loss(ar, data),
        seq![num(ONE)],
        num(FIT_STEP),
        FIT_ROUNDS as nat,
    );
    YeoJohnson { lambda: best.0[0] }
}

/// Fits a Yeo-Johnson transform by maximum likelihood.
pub fn fit_yeo_johnson<F: Fn(Op, Double, Double) -> Double>(
    data: &Vec<Double>,
    ar: &Arithmetic<F>,
) -> (r: Result<
    FittedMarginal<YeoJohnson>,
    GeostatError,
>)
    requires
        ar.total(),
        data@.len() < 2 * HIDDEN,
    ensures
        fit_outcome(
            *ar,
            data@,
            3,
            "marginal fitting needs at least 3 values"@,
            fitted_yeo_johnson(*ar, data@),
            r,
        ),
{
    if data.len() < 3 {
        return Err(too_little("marginal fitting needs at least 3 values"));
    }
    let ghost obj = yeo_johnson_loss(*ar, data@);
    let f = |p: &Vec<Double>| -> (v: Double)
        requires
            p@.len() == 1,
            data@.len() < 2 * HIDDEN,
            ar.total(),
        ensures
            v == loss(*ar, YeoJohnson { lambda: p@[0] }, data@),
        { neg_log_likelihood(&YeoJohnson { lambda: p[0] }, data, ar) };
    let start: Vec<Double> = one_number(num(ONE));
    assert(computes(f, 1, obj));
    let (best, _value): (Vec<Double>, Double) = minimize(
        &f,
        &start,
        num(FIT_STEP),
        FIT_ROUNDS,
        ar,
        Ghost(obj),
    );
    let transform: YeoJohnson = YeoJohnson { lambda: best[0] };
    assert(transform == fitted_yeo_johnson(*ar, data@));
    let (latent_mean, latent_std): (Double, Double) = standardizer(&transform, data, ar);
    Ok(FittedMarginal { transform, latent_mean, latent_std })
}

/// The sinh-arcsinh transform of two parameters.
pub open spec fn sinh_arcsinh_at(p: Seq<Double>, loc: Double, scale: Double) -> SinhArcsinh {
    SinhArcsinh { epsilon: p[0], delta: p[1].abs().max(num(LEAST_TAIL)), loc, scale }
}

/// Loss of a sinh-arcsinh transform as a function of skewness and tail weight.
pub open spec fn sinh_arcsinh_loss<F: Fn(Op, Double, Double) -> Double>(
    ar: Arithmetic<F>,
    loc: Double,
    scale: Double,
    data: Seq<Double>,
) -> Objective {
    |p: Seq<Double>| loss(ar, sinh_arcsinh_at(p, loc, scale), data)
}

/// The fitted sinh-arcsinh transform.
pub open spec fn fitted_sinh_arcsinh<F: Fn(Op, Double, Double) -> Double>(
    ar: Arithmetic<F>,
    data: Seq<Double>,
) -> SinhArcsinh {
    let loc = ar.average_of(data);
    let scale = ar.sqrt(variance_of(ar, data)).max(num(LEAST));
    let best = simplex_minimum(
        ar,
        sinh_arcsinh_loss(ar, loc, scale, data),
        seq![num(0), num(ONE)],
        num(FIT_STEP),
        FIT_ROUNDS_TWO as nat,
    );
    sinh_arcsinh_at(best.0, loc, scale)
}

/// Fits a sinh-arcsinh transform by maximum likelihood. Location and scale are
/// those of the data; skewness and tail weight are optimized.
pub fn fit_sinh_arcsinh<F: Fn(Op, Double, Double) -> Double>(
    data: &Vec<Double>,
    ar: &Arithmetic<F>,
) -> (r: Result<
    FittedMarginal<SinhArcsinh>,
    GeostatError,
>)
    requires
        ar.total(),
        data@.len() < 2 * HIDDEN,
    ensures
        fit_outcome(
            *ar,
            data@,
            4,
            "sinh-arcsinh fitting needs at least 4 values"@,
            fitted_sinh_arcsinh(*ar, data@),
            r,
        ),
{
    if data.len() < 4 {
        return Err(too_little("sinh-arcsinh fitting needs at least 4 values"));
    }
    let loc: Double = ar.mean(data);
    let var: Double = find_variance(data, loc, ar);
    let scale: Double = ar.sqrt(var).max(num(LEAST));
    let ghost obj = sinh_arcsinh_loss(*ar, loc, scale, data@);
    let f = |p: &Vec<Double>| -> (v: Double)
        requires
            p@.len() == 2,
            data@.len() < 2 * HIDDEN,
            ar.total(),
        ensures
            v == loss(*ar, sinh_arcsinh_at(p@, loc, scale), data@),
        {
            neg_log_likelihood(
                &SinhArcsinh { epsilon: p[0], delta: p[1].abs().max(num(LEAST_TAIL)), loc, scale },
                data,
                ar,
            )
        };
    let mut start: Vec<Double> = one_number(Double::zero());
    start.push(num(ONE));
    assert(start@ =~= seq![num(0), num(ONE)]);
    assert(computes(f, 2, obj));
    let (best, _value): (Vec<Double>, Double) = minimize(
        &f,
        &start,
        num(FIT_STEP),
        FIT_ROUNDS_TWO,
        ar,
        Ghost(obj),
    );
    let transform: SinhArcsinh = SinhArcsinh {
        epsilon: best[0],
        delta: best[1].abs().max(num(LEAST_TAIL)),
        loc,
        scale,
    };
    assert(transform == fitted_sinh_arcsinh(*ar, data@));
    let (latent_mean, latent_std): (Double, Double) = standardizer(&transform, data, ar);
    Ok(FittedMarginal { transform, latent_mean, latent_std })
}

} // verus!

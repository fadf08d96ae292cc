//! GSLIB-style distribution-tail extrapolation (`ltail`/`utail`): choosing and
//! checking the tail models.

use vstd::prelude::*;

use crate::arith::{num, Arithmetic, Op, LEAST, TWO};
use crate::ccdf::in_unit;
use crate::double::{Double, NOT_A_NUMBER, ONE};
use crate::error::{GeostatError, Message};
use crate::text::{
    chars_of, concat3, find_char, is_text, lowered, part, string_of, to_lower, trim, trimmed,
};

verus! {

/// Bit pattern of minus one.
pub const MINUS_ONE: u64 = 0xBFF0_0000_0000_0000;

/// Bit pattern of 1e-12.
pub const NEARLY_ZERO: u64 = 0x3D71_9799_812D_EA11;

/// Exponent of a power tail that names none: two.
pub const POWER_DEFAULT: u64 = 0x4000_0000_0000_0000;

/// Exponent of a hyperbolic tail that names none: one and a half.
pub const HYPERBOLIC_DEFAULT: u64 = 0x3FF8_0000_0000_0000;

/// Tail interpolation model (GSLIB `ltail`/`utail`).
#[derive(Clone, Copy, Debug, PartialEq, Eq, Structural)]
pub enum TailModel {
    /// No extrapolation: clamp at the extreme table value. Only meaningful
    /// for the normal-score back-transform.
    Clamped,
    /// Linear interpolation in the cdf to the bound (GSLIB option 1).
    Linear,
    /// Power interpolation with a positive exponent (GSLIB option 2).
    Power(Double),
    /// Hyperbolic (Pareto) upper tail with a positive exponent (GSLIB option
    /// 4), capped at the upper bound. Upper tail only.
    Hyperbolic(Double),
}

impl Default for TailModel {
    fn default() -> (t: TailModel)
        ensures
            t == TailModel::Clamped,
    {
        TailModel::Clamped
    }
}

/// `number` may read `text` as `r`.
pub open spec fn reads<P: Fn(&str) -> Option<Double>>(
    number: P,
    text: Seq<char>,
    r: Option<Double>,
) -> bool {
    exists|s: &str| s@ == text && #[trigger] call_ensures(number, (s,), r)
}

/// A tail spec taken apart: the name in lower case, and the parameter after
/// the first colon, if there is one.
pub open spec fn name_and_parameter(s: Seq<char>) -> (Seq<char>, Option<Seq<char>>) {
    let t = trimmed(s);
    if t.contains(':') {
        let i = first_colon(t);
        (lowered(trimmed(t.take(i))), Some(trimmed(t.skip(i + 1))))
    } else {
        (lowered(t), None)
    }
}

/// Position of the first colon.
pub open spec fn first_colon(t: Seq<char>) -> int
    decreases t.len(),
{
    if t.len() == 0 || t[0] == ':' {
        0
    } else {
        1 + first_colon(t.drop_first())
    }
}

proof fn lemma_first_colon(t: Seq<char>, i: int)
    requires
        0 <= i < t.len(),
        t[i] == ':',
        forall|j: int| 0 <= j < i ==> t[j] != ':',
    ensures
        first_colon(t) == i,
    decreases t.len(),
{
    if i > 0 {
        assert(t[0] != ':');
        lemma_first_colon(t.drop_first(), i - 1);
    }
}

/// The exponent that a parameter gives: the default where there is none.
pub open spec fn exponent_of<P: Fn(&str) -> Option<Double>>(
    number: P,
    parameter: Option<Seq<char>>,
    default: u64,
    w: Double,
) -> bool {
    match parameter {
        None => w.bits == default,
        Some(p) => reads(number, p, Some(w)),
    }
}

impl TailModel {
    /// Parses a tail spec: `none`, `linear`, `power:<omega>` or
    /// `hyper:<omega>`; `number` reads an exponent.
    pub fn parse<P: Fn(&str) -> Option<Double>>(s: &str, number: P) -> (r: Result<
        TailModel,
        GeostatError,
    >)
        requires
            forall|t: &str| #[trigger] call_requires(number, (t,)),
        ensures
            ({
                let (name, parameter) = name_and_parameter(s@);
                if name == "none"@ {
                    r == Ok::<TailModel, GeostatError>(TailModel::Clamped)
                } else if name == "linear"@ {
                    r == Ok::<TailModel, GeostatError>(TailModel::Linear)
                } else if name == "power"@ {
                    match r {
                        Ok(m) => m matches TailModel::Power(w) && exponent_of(
                            number,
                            parameter,
                            POWER_DEFAULT,
                            w,
                        ),
                        Err(e) => refuses_exponent(number, parameter, e),
                    }
                } else if name == "hyper"@ || name == "hyperbolic"@ {
                    match r {
                        Ok(m) => m matches TailModel::Hyperbolic(w) && exponent_of(
                            number,
                            parameter,
                            HYPERBOLIC_DEFAULT,
                            w,
                        ),
                        Err(e) => refuses_exponent(number, parameter, e),
                    }
                } else {
                    r matches Err(e) && e matches GeostatError::InvalidParameter(m) && m.says(
                        "unknown tail model '"@ + name
                            + "' (expected none, linear, power[:w] or hyper[:w])"@,
                    )
                }
            }),
    {
        let all: Vec<char> = chars_of(s);
        let t: Vec<char> = trim(&all);
        let (raw_name, parameter): (Vec<char>, Option<Vec<char>>) = match find_char(&t, ':') {
            Some(i) => {
                proof {
                    lemma_first_colon(t@, i as int);
                    assert(t@.contains(':'));
                    assert(t@.subrange(0, i as int) =~= t@.take(i as int));
                    assert(t@.subrange(i + 1, t@.len() as int) =~= t@.skip(i + 1));
                }
                let head: Vec<char> = part(&t, 0, i);
                let tail: Vec<char> = part(&t, i + 1, t.len());
                (trim(&head), Some(trim(&tail)))
            },
            None => (part(&t, 0, t.len()), None),
        };
        assert(t@.subrange(0, t@.len() as int) =~= t@);
        let name: Vec<char> = to_lower(&raw_name);
        let ghost spec_parameter = name_and_parameter(s@).1;
        assert(name@ == name_and_parameter(s@).0);
        if is_text(&name, "none") {
            return Ok(TailModel::Clamped);
        }
        if is_text(&name, "linear") {
            return Ok(TailModel::Linear);
        }
        if is_text(&name, "power") {
            return match exponent(&parameter, POWER_DEFAULT, &number) {
                Ok(w) => Ok(TailModel::Power(w)),
                Err(e) => Err(e),
            };
        }
        if is_text(&name, "hyper") || is_text(&name, "hyperbolic") {
            return match exponent(&parameter, HYPERBOLIC_DEFAULT, &number) {
                Ok(w) => Ok(TailModel::Hyperbolic(w)),
                Err(e) => Err(e),
            };
        }
        let shown: String = string_of(&name);
        let text: String = concat3(
            "unknown tail model '",
            shown.as_str(),
            "' (expected none, linear, power[:w] or hyper[:w])",
        );
        Err(GeostatError::InvalidParameter(Message::owned(text)))
    }

    /// The exponent is positive, where the model has one.
    pub open spec fn proper(self) -> bool {
        match self {
            TailModel::Power(w) => w.positive(),
            TailModel::Hyperbolic(w) => w.positive(),
            _ => true,
        }
    }

    /// Validates the model for use as a lower tail.
    pub fn validate_lower(self) -> (r: Result<(), GeostatError>)
        ensures
            r is Ok <==> self.lower_ok(),
            r matches Err(e) ==> match self {
                TailModel::Hyperbolic(_) => e matches GeostatError::InvalidParameter(m) && m.says(
                    "hyperbolic tails apply to the upper tail only"@,
                ),
                TailModel::Power(w) => e matches GeostatError::InvalidParameter(m) && m.says_of(
                    "power tail exponent must be positive, got {}"@,
                    seq![w],
                ),
                _ => false,
            },
    {
        match self {
            TailModel::Hyperbolic(_) => Err(
                GeostatError::InvalidParameter(
                    Message::plain("hyperbolic tails apply to the upper tail only"),
                ),
            ),
            TailModel::Power(w) => {
                if w.is_positive() {
                    Ok(())
                } else {
                    Err(
                        GeostatError::InvalidParameter(
                            Message::about("power tail exponent must be positive, got {}", w),
                        ),
                    )
                }
            },
            _ => Ok(()),
        }
    }

    /// The model can be a lower tail.
    pub open spec fn lower_ok(self) -> bool {
        self.proper() && !(self is Hyperbolic)
    }

    /// Validates the model for use as an upper tail.
    pub fn validate_upper(self) -> (r: Result<(), GeostatError>)
        ensures
            r is Ok <==> self.proper(),
            r matches Err(e) ==> match self {
                TailModel::Hyperbolic(w) => e matches GeostatError::InvalidParameter(m)
                    && m.says_of("tail exponent must be positive, got {}"@, seq![w]),
                TailModel::Power(w) => e matches GeostatError::InvalidParameter(m) && m.says_of(
                    "tail exponent must be positive, got {}"@,
                    seq![w],
                ),
                _ => false,
            },
    {
        match self {
            TailModel::Power(w) | TailModel::Hyperbolic(w) => {
                if w.is_positive() {
                    Ok(())
                } else {
                    Err(
                        GeostatError::InvalidParameter(
                            Message::about("tail exponent must be positive, got {}", w),
                        ),
                    )
                }
            },
            _ => Ok(()),
        }
    }
}

/// Reading the parameter failed, and `e` says so.
pub open spec fn refuses_exponent<P: Fn(&str) -> Option<Double>>(
    number: P,
    parameter: Option<Seq<char>>,
    e: GeostatError,
) -> bool {
    &&& parameter matches Some(p)
    &&& reads(number, p, None)
    &&& e matches GeostatError::InvalidParameter(m) && m.says(
        "invalid tail exponent '"@ + p + "'"@,
    )
}

fn exponent<P: Fn(&str) -> Option<Double>>(
    parameter: &Option<Vec<char>>,
    default: u64,
    number: &P,
) -> (r: Result<Double, GeostatError>)
    requires
        forall|t: &str| #[trigger] call_requires(*number, (t,)),
    ensures
        ({
            let p: Option<Seq<char>> = match *parameter {
                Some(v) => Some(v@),
                None => None,
            };
            match r {
                Ok(w) => exponent_of(*number, p, default, w),
                Err(e) => refuses_exponent(*number, p, e),
            }
        }),
{
    match parameter {
        None => Ok(Double { bits: default }),
        Some(p) => {
            let text: String = string_of(p);
            match number(text.as_str()) {
                Some(w) => Ok(w),
                None => {
                    let message: String = concat3("invalid tail exponent '", text.as_str(), "'");
                    Err(GeostatError::InvalidParameter(Message::owned(message)))
                },
            }
        },
    }
}

/// Power interpolation between `a` and `b`: `a + (b - a) t^(1/w)`, with the
/// position `t` kept between zero and one.
pub open spec fn power_drawn<F: Fn(Op, Double, Double) -> Double>(
    ar: Arithmetic<F>,
    a: Double,
    b: Double,
    w: Double,
    t: Double,
) -> Double {
    ar.plus(
        a,
        ar.times(
            ar.minus(b, a),
            ar.pow(t.clamp(num(0), num(ONE)), ar.over(num(ONE), w)),
        ),
    )
}

fn power_draw<F: Fn(Op, Double, Double) -> Double>(
    a: Double,
    b: Double,
    w: Double,
    t: Double,
    ar: &Arithmetic<F>,
) -> (z: Double)
    requires
        ar.total(),
    ensures
        z == power_drawn(*ar, a, b, w, t),
{
    ar.plus(
        a,
        ar.times(
            ar.minus(b, a),
            ar.pow(t.clamp(num(0), num(ONE)), ar.over(num(ONE), w)),
        ),
    )
}

/// The value at position `t` of a lower tail between `zmin` and `z1`.
pub open spec fn lower_drawn<F: Fn(Op, Double, Double) -> Double>(
    ar: Arithmetic<F>,
    model: TailModel,
    zmin: Double,
    z1: Double,
    t: Double,
) -> Double {
    match model {
        TailModel::Linear => power_drawn(ar, zmin, z1, num(ONE), t),
        TailModel::Power(w) => power_drawn(ar, zmin, z1, w, t),
        _ => z1,
    }
}

/// Value in the lower tail class `[zmin, z1]` at relative cdf position `t`.
pub fn draw_lower<F: Fn(Op, Double, Double) -> Double>(
    model: TailModel,
    zmin: Double,
    z1: Double,
    t: Double,
    ar: &Arithmetic<F>,
) -> (z: Double)
    requires
        !(model is Hyperbolic),
        ar.total(),
    ensures
        z == lower_drawn(*ar, model, zmin, z1, t),
{
    match model {
        TailModel::Linear => power_draw(zmin, z1, num(ONE), t, ar),
        TailModel::Power(w) => power_draw(zmin, z1, w, t, ar),
        _ => z1,
    }
}

/// The value at position `t` of an upper tail between `zk` and `zmax`: a
/// hyperbolic tail is `zk (1 - t)^(-1/w)`, capped at `zmax`.
pub open spec fn upper_drawn<F: Fn(Op, Double, Double) -> Double>(
    ar: Arithmetic<F>,
    model: TailModel,
    zk: Double,
    zmax: Double,
    t: Double,
) -> Double {
    match model {
        TailModel::Clamped => zk,
        TailModel::Linear => power_drawn(ar, zk, zmax, num(ONE), t),
        TailModel::Power(w) => power_drawn(ar, zk, zmax, w, t),
        TailModel::Hyperbolic(w) => ar.times(
            zk,
            ar.pow(
                ar.minus(num(ONE), t).max(num(LEAST)),
                ar.over(num(MINUS_ONE), w),
            ),
        ).min(zmax),
    }
}

/// Value in the upper tail class `[zk, zmax]` at relative cdf position `t`.
pub fn draw_upper<F: Fn(Op, Double, Double) -> Double>(
    model: TailModel,
    zk: Double,
    zmax: Double,
    t: Double,
    ar: &Arithmetic<F>,
) -> (z: Double)
    requires
        ar.total(),
    ensures
        z == upper_drawn(*ar, model, zk, zmax, t),
{
    match model {
        TailModel::Clamped => zk,
        TailModel::Linear => power_draw(zk, zmax, num(ONE), t, ar),
        TailModel::Power(w) => power_draw(zk, zmax, w, t, ar),
        TailModel::Hyperbolic(w) => ar.times(
            zk,
            ar.pow(
                ar.minus(num(ONE), t).max(num(LEAST)),
                ar.over(num(MINUS_ONE), w),
            ),
        ).min(zmax),
    }
}

/// First and second moment of a power class between `a` and `b`.
pub open spec fn power_moments_of<F: Fn(Op, Double, Double) -> Double>(
    ar: Arithmetic<F>,
    a: Double,
    b: Double,
    w: Double,
) -> (Double, Double) {
    let d = ar.minus(b, a);
    let m1 = ar.over(w, ar.plus(w, num(ONE)));
    let m2 = ar.over(w, ar.plus(w, num(TWO)));
    (
        ar.plus(a, ar.times(d, m1)),
        ar.plus(
            ar.plus(
                ar.times(a, a),
                ar.times(ar.times(ar.times(num(TWO), a), d), m1),
            ),
            ar.times(ar.times(d, d), m2),
        ),
    )
}

fn power_moments<F: Fn(Op, Double, Double) -> Double>(
    a: Double,
    b: Double,
    w: Double,
    ar: &Arithmetic<F>,
) -> (m: (Double, Double))
    requires
        ar.total(),
    ensures
        m == power_moments_of(*ar, a, b, w),
{
    let d: Double = ar.minus(b, a);
    let m1: Double = ar.over(w, ar.plus(w, num(ONE)));
    let m2: Double = ar.over(w, ar.plus(w, num(TWO)));
    (
        ar.plus(a, ar.times(d, m1)),
        ar.plus(
            ar.plus(
                ar.times(a, a),
                ar.times(ar.times(ar.times(num(TWO), a), d), m1),
            ),
            ar.times(ar.times(d, d), m2),
        ),
    )
}

/// First and second moment of a lower tail class.
pub open spec fn lower_moments_of<F: Fn(Op, Double, Double) -> Double>(
    ar: Arithmetic<F>,
    model: TailModel,
    zmin: Double,
    z1: Double,
) -> (Double, Double) {
    match model {
        TailModel::Linear => power_moments_of(ar, zmin, z1, num(ONE)),
        TailModel::Power(w) => power_moments_of(ar, zmin, z1, w),
        _ => (z1, ar.times(z1, z1)),
    }
}

/// First and second moment of the lower tail class `[zmin, z1]`.
pub fn lower_moments<F: Fn(Op, Double, Double) -> Double>(
    model: TailModel,
    zmin: Double,
    z1: Double,
    ar: &Arithmetic<F>,
) -> (m: (Double, Double))
    requires
        !(model is Hyperbolic),
        ar.total(),
    ensures
        m == lower_moments_of(*ar, model, zmin, z1),
{
    match model {
        TailModel::Linear => power_moments(zmin, z1, num(ONE), ar),
        TailModel::Power(w) => power_moments(zmin, z1, w, ar),
        _ => (z1, ar.times(z1, z1)),
    }
}

/// A moment of a hyperbolic tail of exponent `w`: with `n` the order of the
/// moment and `z`, `top` the powers of the bounds, the capped part plus the
/// uncapped part, which is logarithmic where `w` is `n`.
pub open spec fn hyperbolic_moment<F: Fn(Op, Double, Double) -> Double>(
    ar: Arithmetic<F>,
    w: Double,
    n: Double,
    z: Double,
    top: Double,
    u0: Double,
) -> Double {
    let off = ar.minus(w, n);
    ar.plus(
        ar.times(top, u0),
        if off.abs().lt(num(NEARLY_ZERO)) {
            ar.times(z, ar.ln(ar.over(num(ONE), u0)))
        } else {
            ar.times(
                ar.times(z, ar.over(w, off)),
                ar.minus(num(ONE), ar.pow(u0, ar.over(off, w))),
            )
        },
    )
}

fn hyperbolic_part<F: Fn(Op, Double, Double) -> Double>(
    w: Double,
    n: Double,
    z: Double,
    top: Double,
    u0: Double,
    ar: &Arithmetic<F>,
) -> (m: Double)
    requires
        ar.total(),
    ensures
        m == hyperbolic_moment(*ar, w, n, z, top, u0),
{
    let off: Double = ar.minus(w, n);
    let part: Double = if off.abs().lt(num(NEARLY_ZERO)) {
        ar.times(z, ar.ln(ar.over(num(ONE), u0)))
    } else {
        ar.times(
            ar.times(z, ar.over(w, off)),
            ar.minus(num(ONE), ar.pow(u0, ar.over(off, w))),
        )
    };
    ar.plus(ar.times(top, u0), part)
}

/// First and second moment of an upper tail class.
pub open spec fn upper_moments_of<F: Fn(Op, Double, Double) -> Double>(
    ar: Arithmetic<F>,
    model: TailModel,
    zk: Double,
    zmax: Double,
) -> (Double, Double) {
    match model {
        TailModel::Clamped => (zk, ar.times(zk, zk)),
        TailModel::Linear => power_moments_of(ar, zk, zmax, num(ONE)),
        TailModel::Power(w) => power_moments_of(ar, zk, zmax, w),
        TailModel::Hyperbolic(w) => {
            let u0 = ar.pow(ar.over(zk, zmax), w).clamp(num(0), num(ONE));
            (
                hyperbolic_moment(ar, w, num(ONE), zk, zmax, u0),
                hyperbolic_moment(ar, w, num(TWO), ar.times(zk, zk), ar.times(zmax, zmax), u0),
            )
        },
    }
}

/// First and second moment of the upper tail class `[zk, zmax]`.
pub fn upper_moments<F: Fn(Op, Double, Double) -> Double>(
    model: TailModel,
    zk: Double,
    zmax: Double,
    ar: &Arithmetic<F>,
) -> (m: (Double, Double))
    requires
        ar.total(),
    ensures
        m == upper_moments_of(*ar, model, zk, zmax),
{
    match model {
        TailModel::Clamped => (zk, ar.times(zk, zk)),
        TailModel::Linear => power_moments(zk, zmax, num(ONE), ar),
        TailModel::Power(w) => power_moments(zk, zmax, w, ar),
        TailModel::Hyperbolic(w) => {
            let u0: Double = ar.pow(ar.over(zk, zmax), w).clamp(num(0), num(ONE));
            (
                hyperbolic_part(w, num(ONE), zk, zmax, u0, ar),
                hyperbolic_part(w, num(TWO), ar.times(zk, zk), ar.times(zmax, zmax), u0, ar),
            )
        },
    }
}

/// The arithmetic keeps order where values are drawn between two ends: a step from one
/// end to the other, a share of the way, stays between them; shares, and powers of them,
/// lie between zero and one; a hyperbolic tail does not go below its start. Doubles have
/// all of it but for the last bit of a step.
pub open spec fn keeps_order<F: Fn(Op, Double, Double) -> Double>(ar: Arithmetic<F>) -> bool {
    &&& forall|a: Double, b: Double|
        #![trigger ar.minus(a, b)]
        a.nan() || b.nan() ==> ar.minus(a, b).nan()
    &&& forall|a: Double, b: Double|
        #![trigger ar.minus(b, a)]
        a.below(b) ==> ar.minus(b, a).positive()
    &&& forall|a: Double, b: Double, p: Double|
        #![trigger ar.plus(a, ar.times(ar.minus(b, a), p))]
        a.at_most(b) && in_unit(p) ==> a.at_most(ar.plus(a, ar.times(ar.minus(b, a), p)))
            && ar.plus(a, ar.times(ar.minus(b, a), p)).at_most(b)
    &&& forall|a: Double, b: Double, p: Double|
        #![trigger ar.plus(a, ar.times(p, ar.minus(b, a)))]
        a.at_most(b) && in_unit(p) ==> a.at_most(ar.plus(a, ar.times(p, ar.minus(b, a))))
            && ar.plus(a, ar.times(p, ar.minus(b, a))).at_most(b)
    &&& forall|a: Double, b: Double, x: Double|
        #![trigger ar.over(ar.minus(x, a), ar.minus(b, a))]
        a.at_most(x) && x.at_most(b) && ar.minus(b, a).positive() ==> in_unit(
            ar.over(ar.minus(x, a), ar.minus(b, a)),
        )
    &&& forall|p: Double, w: Double|
        #![trigger ar.pow(p, ar.over(num(ONE), w))]
        in_unit(p) && w.positive() ==> in_unit(ar.pow(p, ar.over(num(ONE), w)))
    &&& forall|z: Double, p: Double, w: Double|
        #![trigger ar.times(z, ar.pow(p, ar.over(num(MINUS_ONE), w)))]
        z.positive() && p.positive() && w.positive() ==> z.at_most(
            ar.times(z, ar.pow(p, ar.over(num(MINUS_ONE), w))),
        )
}

/// Steps that stay where they start.
pub open spec fn standing(op: Op, a: Double, b: Double) -> Double {
    match op {
        Op::Minus => if a.nan() || b.nan() {
            num(NOT_A_NUMBER)
        } else if b.below(a) {
            num(ONE)
        } else {
            num(0)
        },
        Op::Over | Op::Power => num(ONE),
        _ => a,
    }
}

/// There are arithmetics that keep order.
pub proof fn some_arithmetic_keeps_order<F: Fn(Op, Double, Double) -> Double>(apply: F)
    ensures
        keeps_order(
            (Arithmetic { apply, model: Ghost(|op: Op, a: Double, b: Double| standing(op, a, b)) }),
        ),
{
}

proof fn lemma_power_stays<F: Fn(Op, Double, Double) -> Double>(
    ar: Arithmetic<F>,
    a: Double,
    b: Double,
    w: Double,
    t: Double,
)
    requires
        keeps_order(ar),
        a.at_most(b),
        w.positive(),
        !t.nan(),
    ensures
        a.at_most(power_drawn(ar, a, b, w, t)),
        power_drawn(ar, a, b, w, t).at_most(b),
{
    let p = t.clamp(num(0), num(ONE));
    assert(in_unit(p));
    assert(in_unit(ar.pow(p, ar.over(num(ONE), w))));
}

/// A draw from the lower tail lies between its ends.
pub proof fn lower_draw_stays<F: Fn(Op, Double, Double) -> Double>(
    ar: Arithmetic<F>,
    model: TailModel,
    zmin: Double,
    z1: Double,
    t: Double,
)
    requires
        keeps_order(ar),
        model.lower_ok(),
        zmin.at_most(z1),
        !t.nan(),
    ensures
        zmin.at_most(lower_drawn(ar, model, zmin, z1, t)),
        lower_drawn(ar, model, zmin, z1, t).at_most(z1),
{
    match model {
        TailModel::Linear => {
            lemma_power_stays(ar, zmin, z1, num(ONE), t);
        },
        TailModel::Power(w) => {
            lemma_power_stays(ar, zmin, z1, w, t);
        },
        _ => {},
    }
}

/// A draw from the upper tail lies between its ends.
pub proof fn upper_draw_stays<F: Fn(Op, Double, Double) -> Double>(
    ar: Arithmetic<F>,
    model: TailModel,
    zk: Double,
    zmax: Double,
    t: Double,
)
    requires
        keeps_order(ar),
        model.proper(),
        model is Hyperbolic ==> zk.positive(),
        zk.at_most(zmax),
        !t.nan(),
    ensures
        zk.at_most(upper_drawn(ar, model, zk, zmax, t)),
        upper_drawn(ar, model, zk, zmax, t).at_most(zmax),
{
    match model {
        TailModel::Clamped => {},
        TailModel::Linear => {
            lemma_power_stays(ar, zk, zmax, num(ONE), t);
        },
        TailModel::Power(w) => {
            lemma_power_stays(ar, zk, zmax, w, t);
        },
        TailModel::Hyperbolic(w) => {
            let p = ar.minus(num(ONE), t).max(num(LEAST));
            assert(p.positive());
            assert(zk.at_most(ar.times(zk, ar.pow(p, ar.over(num(MINUS_ONE), w)))));
        },
    }
}

} // verus!

//! The values of doubles: every finite double is a whole number of units of 2 to the
//! power -1074, so values compare and add as integers.

use vstd::arithmetic::power2::{lemma_pow2_adds, lemma_pow2_pos, lemma_pow2_unfold, pow2};
use vstd::prelude::*;

use crate::arith::{num, Arithmetic, Op};
use crate::double::{Double, HIDDEN, ONE};

verus! {

/// Value of a finite double, in units of 2 to the power -1074.
pub open spec fn units(d: Double) -> int {
    let n = d.mantissa() * pow2((d.scale() - 1) as nat);
    if d.negative() {
        -(n as int)
    } else {
        n as int
    }
}

/// Units of one.
pub open spec fn unity() -> int {
    pow2(1074) as int
}

/// The sum does not round.
pub open spec fn adds<F: Fn(Op, Double, Double) -> Double>(ar: Arithmetic<F>, a: Double, b: Double) -> bool {
    &&& a.finite() && b.finite() && ar.plus(a, b).finite()
    &&& units(ar.plus(a, b)) == units(a) + units(b)
}

/// The difference does not round.
pub open spec fn subtracts<F: Fn(Op, Double, Double) -> Double>(ar: Arithmetic<F>, a: Double, b: Double) -> bool {
    &&& a.finite() && b.finite() && ar.minus(a, b).finite()
    &&& units(ar.minus(a, b)) == units(a) - units(b)
}

/// The product does not round.
pub open spec fn multiplies<F: Fn(Op, Double, Double) -> Double>(ar: Arithmetic<F>, a: Double, b: Double) -> bool {
    &&& a.finite() && b.finite() && ar.times(a, b).finite()
    &&& units(ar.times(a, b)) * unity() == units(a) * units(b)
}

/// The quotient does not round.
pub open spec fn divides<F: Fn(Op, Double, Double) -> Double>(ar: Arithmetic<F>, a: Double, b: Double) -> bool {
    &&& a.finite() && b.finite() && ar.over(a, b).finite()
    &&& units(ar.over(a, b)) * units(b) == units(a) * unity()
}

/// 2 to the 53rd: doubles are rounded to within one part in as many.
pub open spec fn precision() -> int {
    0x20_0000_0000_0000
}

/// Magnitude of an integer.
pub open spec fn size(a: int) -> int {
    if a < 0 {
        -a
    } else {
        a
    }
}

/// `a` lies between `-b` and `b`.
pub open spec fn within(a: int, b: int) -> bool {
    -b <= a <= b
}

/// The sum is finite, and rounded as doubles are: to within one part in `precision`. Sums
/// do not underflow.
pub open spec fn adds_nearly<F: Fn(Op, Double, Double) -> Double>(ar: Arithmetic<F>, a: Double, b: Double) -> bool {
    let s = units(a) + units(b);
    &&& a.finite() && b.finite() && ar.plus(a, b).finite()
    &&& within((units(ar.plus(a, b)) - s) * precision(), size(s))
}

/// The difference is finite, and rounded as doubles are.
pub open spec fn subtracts_nearly<F: Fn(Op, Double, Double) -> Double>(
    ar: Arithmetic<F>,
    a: Double,
    b: Double,
) -> bool {
    let s = units(a) - units(b);
    &&& a.finite() && b.finite() && ar.minus(a, b).finite()
    &&& within((units(ar.minus(a, b)) - s) * precision(), size(s))
}

/// The product is finite, and rounded as doubles are: to within one part in `precision`,
/// or half of the smallest unit.
pub open spec fn multiplies_nearly<F: Fn(Op, Double, Double) -> Double>(
    ar: Arithmetic<F>,
    a: Double,
    b: Double,
) -> bool {
    let p = units(a) * units(b);
    &&& a.finite() && b.finite() && ar.times(a, b).finite()
    &&& within(
        2 * (units(ar.times(a, b)) * unity() - p) * precision(),
        2 * size(p) + precision() * unity(),
    )
}

/// The quotient by a positive number is finite, and rounded as doubles are.
pub open spec fn divides_nearly<F: Fn(Op, Double, Double) -> Double>(
    ar: Arithmetic<F>,
    a: Double,
    b: Double,
) -> bool {
    let p = units(a) * unity();
    &&& a.finite() && b.finite() && ar.over(a, b).finite()
    &&& units(b) > 0
    &&& within(
        2 * (units(ar.over(a, b)) * units(b) - p) * precision(),
        2 * size(p) + precision() * units(b),
    )
}

/// There are units of one.
pub proof fn unity_is_positive()
    ensures
        unity() > 0,
{
    lemma_pow2_pos(1074);
}

/// The mantissa of a double with a nonzero exponent field fills its width.
pub(crate) proof fn lemma_mantissa(d: Double)
    ensures
        d.mantissa() < 2 * HIDDEN,
        d.exponent() > 0 ==> HIDDEN <= d.mantissa(),
        d.exponent() == 0 ==> d.mantissa() == d.magnitude(),
        d.exponent() > 0 ==> d.mantissa() - HIDDEN == d.magnitude() - d.exponent() * HIDDEN,
        d.scale() >= 1,
{
    let m = d.magnitude();
    vstd::arithmetic::div_mod::lemma_fundamental_div_mod(m, HIDDEN as int);
    vstd::arithmetic::div_mod::lemma_mod_bound(m, HIDDEN as int);
    assert(HIDDEN as int * (m / HIDDEN as int) == (m / HIDDEN as int) * HIDDEN) by (nonlinear_arith);
}

/// Greater magnitudes are of greater value.
proof fn lemma_magnitudes(a: Double, b: Double)
    requires
        a.magnitude() < b.magnitude(),
    ensures
        a.mantissa() * pow2((a.scale() - 1) as nat) < b.mantissa() * pow2((b.scale() - 1) as nat),
{
    lemma_mantissa(a);
    lemma_mantissa(b);
    let (x, y) = (a.mantissa() as int, b.mantissa() as int);
    let (e, f) = ((a.scale() - 1) as nat, (b.scale() - 1) as nat);
    let (p, q) = (pow2(e) as int, pow2(f) as int);
    lemma_pow2_pos(e);
    lemma_pow2_pos(f);
    vstd::arithmetic::div_mod::lemma_fundamental_div_mod(a.magnitude(), HIDDEN as int);
    vstd::arithmetic::div_mod::lemma_mod_bound(a.magnitude(), HIDDEN as int);
    vstd::arithmetic::div_mod::lemma_fundamental_div_mod(b.magnitude(), HIDDEN as int);
    vstd::arithmetic::div_mod::lemma_mod_bound(b.magnitude(), HIDDEN as int);
    let (i, j) = (a.exponent() as int, b.exponent() as int);
    assert(i <= j) by {
        if i > j {
            assert(HIDDEN * i >= HIDDEN * j + HIDDEN) by (nonlinear_arith)
                requires
                    i >= j + 1,
            ;
        }
    }
    if e == f {
        assert(x < y) by {
            if i == j {
            } else {
                // The fields are zero and one: both stand for the same scale.
                assert(i == 0 && j == 1);
            }
        }
        assert(x * p < y * q) by (nonlinear_arith)
            requires
                x < y,
                p == q,
                p > 0,
        ;
    } else {
        assert(e < f);
        assert(j > 0);
        let k = (f - e) as nat;
        lemma_pow2_adds(e, k);
        lemma_pow2_unfold(k);
        lemma_pow2_pos((k - 1) as nat);
        assert(x * p < y * q) by (nonlinear_arith)
            requires
                0 <= x < 2 * HIDDEN,
                HIDDEN <= y,
                p > 0,
                q == p * pow2(k) as int,
                pow2(k) >= 2,
        ;
    }
}

/// Doubles compare as their values do.
pub proof fn values_order_as_doubles(a: Double, b: Double)
    requires
        a.finite(),
        b.finite(),
    ensures
        a.at_most(b) <==> units(a) <= units(b),
        a.below(b) <==> units(a) < units(b),
        units(num(0)) == 0,
{
    lemma_pow2_pos((a.scale() - 1) as nat);
    lemma_pow2_pos((b.scale() - 1) as nat);
    lemma_zero(a);
    lemma_zero(b);
    lemma_zero(num(0));
    if a.magnitude() < b.magnitude() {
        lemma_magnitudes(a, b);
    } else if b.magnitude() < a.magnitude() {
        lemma_magnitudes(b, a);
    }
}

proof fn lemma_zero(a: Double)
    ensures
        a.mantissa() * pow2((a.scale() - 1) as nat) >= 0,
        a.mantissa() * pow2((a.scale() - 1) as nat) == 0 <==> a.magnitude() == 0,
{
    lemma_mantissa(a);
    let p = pow2((a.scale() - 1) as nat);
    lemma_pow2_pos((a.scale() - 1) as nat);
    let m = a.mantissa();
    if a.magnitude() == 0 {
        assert(a.exponent() == 0);
        assert(m * p == 0) by (nonlinear_arith)
            requires
                m == 0,
        ;
    } else {
        assert(m > 0);
        assert(m * p > 0) by (nonlinear_arith)
            requires
                m > 0,
                p > 0,
        ;
    }
}

proof fn lemma_scaled_units(m: nat, base: nat, k: nat)
    requires
        0 < m < 2 * HIDDEN,
        m * pow2(k) >= HIDDEN,
        k < base <= 2046,
    ensures
        units(Double::scaled(m, base)) == m * pow2((base - 1) as nat),
    decreases base,
{
    let d = Double::scaled(m, base);
    if m < HIDDEN {
        vstd::arithmetic::power2::lemma2_to64();
        assert(k > 0) by (nonlinear_arith)
            requires
                m * pow2(k) >= HIDDEN,
                m < HIDDEN,
                pow2(0) == 1,
        ;
        lemma_pow2_unfold(k);
        assert(2 * m * pow2((k - 1) as nat) == m * pow2(k)) by (nonlinear_arith)
            requires
                pow2(k) == 2 * pow2((k - 1) as nat),
        ;
        lemma_scaled_units(2 * m, (base - 1) as nat, (k - 1) as nat);
        lemma_pow2_unfold((base - 1) as nat);
        assert(2 * m * pow2((base - 2) as nat) == m * pow2((base - 1) as nat)) by (nonlinear_arith)
            requires
                pow2((base - 1) as nat) == 2 * pow2((base - 2) as nat),
        ;
    } else {
        let bits = base * HIDDEN + (m - HIDDEN);
        assert(0 <= bits < 0x8000_0000_0000_0000) by (nonlinear_arith)
            requires
                bits == base * HIDDEN + (m - HIDDEN),
                0 <= base <= 2046,
                HIDDEN <= m < 2 * HIDDEN,
                HIDDEN == 0x0010_0000_0000_0000,
        ;
        assert(d.bits == bits);
        vstd::arithmetic::div_mod::lemma_fundamental_div_mod_converse(
            bits,
            HIDDEN as int,
            base as int,
            m - HIDDEN,
        );
        assert(d.exponent() == base);
        assert(d.mantissa() == m);
    }
}

/// The value of a count.
pub proof fn counts_have_their_value(n: nat)
    requires
        n < 2 * HIDDEN,
    ensures
        units(Double::count(n)) == n * unity(),
        Double::count(n).finite(),
        Double::count(1) == num(ONE),
        units(num(ONE)) == unity(),
{
    vstd::arithmetic::power2::lemma2_to64();
    vstd::arithmetic::power2::lemma2_to64_rest();
    lemma_scaled_units(1, 1075, 53);
    reveal_with_fuel(Double::scaled, 54);
    if n == 0 {
        lemma_zero(num(0));
        assert(0 * unity() == 0) by (nonlinear_arith);
    } else {
        assert(n * pow2(53) >= HIDDEN) by (nonlinear_arith)
            requires
                n > 0,
                pow2(53) >= HIDDEN,
        ;
        lemma_scaled_units(n, 1075, 53);
        Double::counts_are_positive(n);
    }
}

/// Rounding to a whole number goes half of one far at most.
pub proof fn rounded_is_near(x: Double)
    ensures
        -unity() <= 2 * (x.rounded() * unity() - units(x)) <= unity(),
{
    lemma_mantissa(x);
    unity_is_positive();
    let m = x.mantissa() as int;
    let s = x.scale();
    let low = pow2((s - 1) as nat) as int;
    let u = unity();
    lemma_pow2_pos((s - 1) as nat);
    let n = x.whole() as int + if x.has_half() {
        1int
    } else {
        0int
    };
    if s >= 1075 {
        let up = (s - 1075) as nat;
        lemma_pow2_adds(up, 1074);
        assert(m * low == (m * pow2(up) as int) * u) by (nonlinear_arith)
            requires
                low == pow2(up) as int * u,
        ;
        assert(n * u == m * low);
    } else {
        let k = (1075 - s) as nat;
        let w = pow2(k) as int;
        lemma_pow2_adds(k, (s - 1) as nat);
        lemma_pow2_pos(k);
        let (whole, rest) = (m / w, m % w);
        vstd::arithmetic::div_mod::lemma_fundamental_div_mod(m, w);
        vstd::arithmetic::div_mod::lemma_mod_bound(m, w);
        assert(m * low == whole * u + rest * low) by (nonlinear_arith)
            requires
                m == w * whole + rest,
                u == w * low,
        ;
        assert(whole * u + u == (whole + 1) * u) by (nonlinear_arith);
        if x.has_half() {
            assert(2 * (rest * low) >= u && rest * low <= u) by (nonlinear_arith)
                requires
                    2 * rest >= w,
                    rest < w,
                    low > 0,
                    u == w * low,
            ;
        } else {
            assert(2 * (rest * low) <= u && rest * low >= 0) by (nonlinear_arith)
                requires
                    2 * rest <= w,
                    rest >= 0,
                    low > 0,
                    u == w * low,
            ;
        }
    }
    assert((-n) * u == -(n * u)) by (nonlinear_arith);
}

} // verus!

//! Arithmetic that rounds to the nearest double, ties to even: it keeps order, so that
//! corrected distributions of doubles ascend, stay between zero and one, and settle.

use vstd::arithmetic::power2::pow2;
use vstd::prelude::*;

use crate::arith::{num, Arithmetic, Op, HALF, MINUS_ZERO};
use crate::ccdf::{
    averages_are_exact, averages_keep_order, corrected, corrections_are_monotone_and_bounded,
    corrections_settle, in_unit, proper_distribution_is_kept,
};
use crate::double::{Double, HIDDEN, INFINITE, ONE, SIGN};
use crate::exact_moments::lemma_half;
use crate::value::{
    counts_have_their_value, lemma_mantissa, size, units, unity, unity_is_positive,
    values_order_as_doubles,
};

verus! {

/// `r` is the nearest finite double to `x / one` units; of two that are equally near, the
/// one whose last bit is zero.
pub open spec fn rounds_to(r: Double, x: int, one: int) -> bool {
    &&& r.finite()
    &&& forall|d: Double| #[trigger]
        d.finite() ==> {
            &&& size(units(r) * one - x) <= size(units(d) * one - x)
            &&& size(units(r) * one - x) == size(units(d) * one - x) && units(d) != units(r)
                ==> r.bits % 2 == 0
        }
}

/// The greatest finite double.
pub open spec fn greatest() -> Double {
    num((INFINITE - 1) as u64)
}

/// Sums, products and quotients by positive doubles are rounded to the nearest double, as
/// IEEE 754 has them, unless they overflow; a sum or product that is zero has the sign
/// that the operands give it.
pub open spec fn nearest<F: Fn(Op, Double, Double) -> Double>(ar: Arithmetic<F>) -> bool {
    &&& forall|a: Double, b: Double|
        #![trigger ar.plus(a, b)]
        a.finite() && b.finite() && size(units(a) + units(b)) <= units(greatest()) ==> {
            &&& rounds_to(ar.plus(a, b), units(a) + units(b), 1)
            &&& units(a) + units(b) == 0 ==> ar.plus(a, b) == (if a.negative() && b.negative() {
                num(MINUS_ZERO)
            } else {
                num(0)
            })
        }
    &&& forall|a: Double, b: Double|
        #![trigger ar.times(a, b)]
        a.finite() && b.finite() && size(units(a) * units(b)) <= units(greatest()) * unity() ==> {
            &&& rounds_to(ar.times(a, b), units(a) * units(b), unity())
            &&& units(a) * units(b) == 0 ==> ar.times(a, b) == (if a.negative() != b.negative() {
                num(MINUS_ZERO)
            } else {
                num(0)
            })
        }
    &&& forall|a: Double, b: Double|
        #![trigger ar.over(a, b)]
        a.finite() && b.finite() && units(b) > 0 && size(units(a) * unity()) <= units(greatest())
            * units(b) ==> rounds_to(ar.over(a, b), units(a) * unity(), units(b))
}

/// The double at a place of the number line.
spec fn at_place(p: int) -> Double {
    if p < 0 {
        Double { bits: (SIGN - p) as u64 }
    } else {
        Double { bits: p as u64 }
    }
}

/// A double rounds to itself.
proof fn lemma_rounds_to_itself(d: Double, one: int)
    requires
        d.finite(),
        one > 0,
    ensures
        rounds_to(d, units(d) * one, one),
{
    assert forall|c: Double| #[trigger] c.finite() && units(c) * one == units(d) * one implies units(
        c,
    ) == units(d) by {
        assert(units(c) == units(d)) by (nonlinear_arith)
            requires
                units(c) * one == units(d) * one,
                one > 0,
        ;
    }
}

/// Rounding keeps order.
proof fn lemma_rounding_keeps_order(r: Double, x: int, s: Double, y: int, one: int)
    requires
        one > 0,
        rounds_to(r, x, one),
        rounds_to(s, y, one),
        x <= y,
    ensures
        units(r) <= units(s),
{
    if units(r) > units(s) {
        let (a, b) = (units(r) * one, units(s) * one);
        assert(a > b) by (nonlinear_arith)
            requires
                a == units(r) * one,
                b == units(s) * one,
                units(r) > units(s),
                one > 0,
        ;
        assert(size(a - x) <= size(b - x));
        assert(size(b - y) <= size(a - y));
        // Both stand equally far from the value that is rounded.
        assert(x == y && a - x == x - b);
        assert(r.bits % 2 == 0 && s.bits % 2 == 0);
        values_order_as_doubles(s, r);
        let t = at_place(s.place() + 1);
        assert(t.place() == s.place() + 1);
        if t.place() < r.place() {
            assert(t.finite());
            values_order_as_doubles(s, t);
            values_order_as_doubles(t, r);
            let c = units(t) * one;
            assert(b < c < a) by (nonlinear_arith)
                requires
                    a == units(r) * one,
                    b == units(s) * one,
                    c == units(t) * one,
                    units(s) < units(t) < units(r),
                    one > 0,
            ;
            assert(size(a - x) <= size(c - x));
        } else {
            assert(r.place() == s.place() + 1);
        }
    }
}

/// What is rounded is no lesser, or no greater, than a double that is no greater, or no
/// lesser, than the exact result.
pub(crate) proof fn lemma_rounding_stays(r: Double, x: int, one: int, d: Double)
    requires
        one > 0,
        d.finite(),
        rounds_to(r, x, one),
    ensures
        units(d) * one <= x ==> units(d) <= units(r),
        x <= units(d) * one ==> units(r) <= units(d),
{
    lemma_rounds_to_itself(d, one);
    if units(d) * one <= x {
        lemma_rounding_keeps_order(d, units(d) * one, r, x, one);
    }
    if x <= units(d) * one {
        lemma_rounding_keeps_order(r, x, d, units(d) * one, one);
    }
}

/// Numbers up to two are within reach.
proof fn lemma_reach()
    ensures
        2 * unity() <= units(greatest()),
        greatest().finite(),
{
    counts_have_their_value(2);
    Double::counts_are_positive(2);
    values_order_as_doubles(Double::count(2), greatest());
}

/// Sums of numbers between zero and one, and halves of them, are rounded.
proof fn lemma_average<F: Fn(Op, Double, Double) -> Double>(ar: Arithmetic<F>, a: Double, b: Double)
    requires
        nearest(ar),
        in_unit(a),
        in_unit(b),
    ensures
        a.finite(),
        b.finite(),
        0 <= units(a) <= unity(),
        0 <= units(b) <= unity(),
        rounds_to(ar.plus(a, b), units(a) + units(b), 1),
        0 <= units(ar.plus(a, b)) <= 2 * unity(),
        rounds_to(
            ar.times(num(HALF), ar.plus(a, b)),
            units(num(HALF)) * units(ar.plus(a, b)),
            unity(),
        ),
        in_unit(ar.times(num(HALF), ar.plus(a, b))),
{
    let (u, h) = (unity(), units(num(HALF)));
    unity_is_positive();
    counts_have_their_value(1);
    counts_have_their_value(2);
    lemma_half();
    lemma_reach();
    values_order_as_doubles(num(0), a);
    values_order_as_doubles(a, num(ONE));
    values_order_as_doubles(num(0), b);
    values_order_as_doubles(b, num(ONE));
    let s = ar.plus(a, b);
    assert(rounds_to(s, units(a) + units(b), 1));
    lemma_rounding_stays(s, units(a) + units(b), 1, num(0));
    lemma_rounding_stays(s, units(a) + units(b), 1, Double::count(2));
    let p = h * units(s);
    assert(0 <= p <= u * u) by (nonlinear_arith)
        requires
            p == h * units(s),
            2 * h == u,
            0 <= units(s) <= 2 * u,
            u > 0,
    ;
    assert(u * u <= units(greatest()) * u) by (nonlinear_arith)
        requires
            2 * u <= units(greatest()),
            u > 0,
    ;
    let r = ar.times(num(HALF), s);
    assert(rounds_to(r, p, u));
    lemma_rounding_stays(r, p, u, num(0));
    lemma_rounding_stays(r, p, u, num(ONE));
    values_order_as_doubles(num(0), r);
    values_order_as_doubles(r, num(ONE));
}

/// Twice a double between zero and one.
spec fn doubled(a: Double) -> Double {
    if a.exponent() == 0 {
        Double { bits: (a.bits + a.magnitude()) as u64 }
    } else {
        Double { bits: (a.bits + HIDDEN) as u64 }
    }
}

proof fn lemma_doubled(a: Double)
    requires
        a.finite(),
        a.magnitude() <= ONE,
    ensures
        doubled(a).finite(),
        units(doubled(a)) == 2 * units(a),
{
    let d = doubled(a);
    let m = a.magnitude();
    lemma_mantissa(a);
    lemma_mantissa(d);
    vstd::arithmetic::div_mod::lemma_fundamental_div_mod(m, HIDDEN as int);
    vstd::arithmetic::div_mod::lemma_mod_bound(m, HIDDEN as int);
    assert(d.negative() == a.negative());
    if a.exponent() == 0 {
        assert(m < HIDDEN);
        assert(d.magnitude() == 2 * m);
        vstd::arithmetic::power2::lemma2_to64();
        assert(d.scale() == 1 && d.mantissa() == 2 * m);
        assert(a.scale() == 1 && a.mantissa() == m);
        assert(pow2(0) == 1);
        let (k, l, one) = (a.mantissa(), d.mantissa(), pow2(0));
        assert((a.scale() - 1) as nat == 0 && (d.scale() - 1) as nat == 0);
        assert(k * one == k && l * one == l) by (nonlinear_arith)
            requires
                one == 1,
        ;
    } else {
        let e = a.exponent() as int;
        assert(d.magnitude() == m + HIDDEN);
        vstd::arithmetic::div_mod::lemma_fundamental_div_mod_converse(
            m + HIDDEN,
            HIDDEN as int,
            e + 1,
            m % HIDDEN as int,
        );
        assert(d.exponent() == e + 1 && d.mantissa() == a.mantissa());
        let low = (a.scale() - 1) as nat;
        assert((d.scale() - 1) as nat == low + 1);
        vstd::arithmetic::power2::lemma_pow2_unfold(low + 1);
        let p = pow2(low);
        assert(pow2(low + 1) == 2 * p);
        let k = a.mantissa();
        assert(k * (2 * p) == 2 * (k * p)) by (nonlinear_arith);
    }
}

/// A nonzero value is that of one double.
proof fn lemma_same_value(a: Double, b: Double)
    requires
        a.finite(),
        b.finite(),
        units(a) == units(b),
        units(a) != 0,
    ensures
        a == b,
{
    values_order_as_doubles(a, b);
    values_order_as_doubles(b, a);
    values_order_as_doubles(num(0), a);
    values_order_as_doubles(a, num(0));
}

/// The average of a double with itself is that double.
proof fn lemma_average_with_itself<F: Fn(Op, Double, Double) -> Double>(ar: Arithmetic<F>, a: Double)
    requires
        nearest(ar),
        in_unit(a),
    ensures
        ar.times(num(HALF), ar.plus(a, a)) == a,
{
    let (u, h) = (unity(), units(num(HALF)));
    let s = ar.plus(a, a);
    let r = ar.times(num(HALF), s);
    unity_is_positive();
    lemma_half();
    lemma_reach();
    lemma_average(ar, a, a);
    lemma_doubled(a);
    let d = doubled(a);
    lemma_rounding_stays(s, 2 * units(a), 1, d);
    assert(units(s) == 2 * units(a));
    assert(h * units(s) == units(a) * u) by (nonlinear_arith)
        requires
            units(s) == 2 * units(a),
            2 * h == u,
    ;
    lemma_rounding_stays(r, units(a) * u, u, a);
    assert(units(r) == units(a));
    if units(a) == 0 {
        values_order_as_doubles(num(0), a);
        values_order_as_doubles(a, num(0));
        assert(a == num(0) || a == num(MINUS_ZERO));
        assert(h * units(s) == 0) by (nonlinear_arith)
            requires
                units(s) == 0,
        ;
        assert(size(h * units(s)) <= units(greatest()) * u) by (nonlinear_arith)
            requires
                h * units(s) == 0,
                2 * u <= units(greatest()),
                u > 0,
        ;
        assert(s == a);
    } else {
        lemma_same_value(r, a);
    }
}

/// Averages of doubles keep order, and that of a double with itself is that double.
pub proof fn averages_of_doubles<F: Fn(Op, Double, Double) -> Double>(ar: Arithmetic<F>)
    requires
        nearest(ar),
    ensures
        averages_keep_order(ar),
        averages_are_exact(ar),
{
    let h = units(num(HALF));
    unity_is_positive();
    lemma_half();
    assert forall|a: Double, b: Double, c: Double, d: Double|
        #![trigger ar.times(num(HALF), ar.plus(a, b)), ar.times(num(HALF), ar.plus(c, d))]
        in_unit(a) && in_unit(b) && in_unit(c) && in_unit(d) && a.at_most(c) && b.at_most(
            d,
        ) implies ar.times(num(HALF), ar.plus(a, b)).at_most(
        ar.times(num(HALF), ar.plus(c, d)),
    ) by {
        lemma_average(ar, a, b);
        lemma_average(ar, c, d);
        values_order_as_doubles(a, c);
        values_order_as_doubles(b, d);
        let (s, t) = (ar.plus(a, b), ar.plus(c, d));
        lemma_rounding_keeps_order(s, units(a) + units(b), t, units(c) + units(d), 1);
        assert(h * units(s) <= h * units(t)) by (nonlinear_arith)
            requires
                units(s) <= units(t),
                h >= 0,
        ;
        let (r, q) = (ar.times(num(HALF), s), ar.times(num(HALF), t));
        lemma_rounding_keeps_order(r, h * units(s), q, h * units(t), unity());
        values_order_as_doubles(r, q);
    }
    assert forall|a: Double, b: Double|
        #![trigger ar.times(num(HALF), ar.plus(a, b))]
        in_unit(a) && in_unit(b) implies in_unit(ar.times(num(HALF), ar.plus(a, b))) by {
        lemma_average(ar, a, b);
    }
    assert forall|a: Double|
        #![trigger ar.plus(a, a)]
        in_unit(a) implies ar.times(num(HALF), ar.plus(a, a)) == a by {
        lemma_average_with_itself(ar, a);
    }
}

/// Corrected distributions of doubles: they have as many values, all between zero and one
/// and never decreasing; one that was so already is left as it was, so correcting again
/// changes nothing.
pub proof fn corrections_of_doubles<F: Fn(Op, Double, Double) -> Double>(
    ar: Arithmetic<F>,
    raw: Seq<Double>,
)
    requires
        nearest(ar),
        forall|i: int| 0 <= i < raw.len() ==> !(#[trigger] raw[i]).nan(),
    ensures
        corrected(ar, raw).len() == raw.len(),
        forall|k: int| 0 <= k < raw.len() ==> in_unit(#[trigger] corrected(ar, raw)[k]),
        forall|j: int, k: int|
            0 <= j < k < raw.len() ==> (#[trigger] corrected(ar, raw)[j]).at_most(
                #[trigger] corrected(ar, raw)[k],
            ),
        (forall|k: int| 0 <= k < raw.len() ==> in_unit(#[trigger] raw[k])) && (forall|
            j: int,
            k: int,
        |
            0 <= j < k < raw.len() ==> (#[trigger] raw[j]).at_most(#[trigger] raw[k])) ==> corrected(
            ar,
            raw,
        ) == raw,
        corrected(ar, corrected(ar, raw)) == corrected(ar, raw),
{
    averages_of_doubles(ar);
    corrections_are_monotone_and_bounded(ar, raw);
    corrections_settle(ar, raw);
    if (forall|k: int| 0 <= k < raw.len() ==> in_unit(#[trigger] raw[k])) && (forall|
        j: int,
        k: int,
    |
        0 <= j < k < raw.len() ==> (#[trigger] raw[j]).at_most(#[trigger] raw[k])) {
        proper_distribution_is_kept(ar, raw);
    }
}

} // verus!

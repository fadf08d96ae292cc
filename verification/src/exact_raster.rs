//! Rasters of doubles: what is read back lies within a step of what was written, up to
//! rounding.

use vstd::prelude::*;

use crate::arith::{num, Arithmetic, Op, LEAST};
use crate::double::{Double, INFINITE, ONE};
use crate::marginal::{greatest_of, least_of};
use crate::raster::{
    finite_of, grid_values, image_of, pixel_of, span_of, written_raster_reads_back, PixelMap,
    Tile, TileMatrix, STEPS,
};
use crate::value::{
    adds_nearly, counts_have_their_value, divides_nearly, multiplies_nearly, precision,
    rounded_is_near, size, subtracts_nearly, units, unity, unity_is_positive,
    values_order_as_doubles, within,
};

verus! {

/// Number of steps between the first and the last pixel.
pub const STEP_COUNT: u64 = 65534;

proof fn lemma_extremes(xs: Seq<Double>, i: int)
    requires
        0 <= i < xs.len(),
        forall|j: int| 0 <= j < xs.len() ==> (#[trigger] xs[j]).finite(),
    ensures
        least_of(xs).finite(),
        greatest_of(xs).finite(),
        least_of(xs).at_most(xs[i]),
        xs[i].at_most(greatest_of(xs)),
    decreases xs.len(),
{
    let rest = xs.drop_last();
    assert(xs.last() == xs[xs.len() - 1] && xs[xs.len() - 1].finite());
    assert forall|j: int| 0 <= j < rest.len() implies (#[trigger] rest[j]).finite() by {
        assert(xs[j].finite());
    }
    if rest.len() > 0 {
        lemma_extremes(rest, if i < rest.len() {
            i
        } else {
            0
        });
        if i < rest.len() {
            assert(rest[i] == xs[i]);
        }
    } else {
        let x = xs.last();
        assert(least_of(rest) == num(INFINITE) && greatest_of(rest) == num(INFINITE).neg());
        assert(x.below(num(INFINITE)) && num(INFINITE).neg().below(x));
        assert(i == xs.len() - 1);
    }
}

proof fn lemma_finite_of(values: Seq<Double>, k: int)
    requires
        0 <= k < values.len(),
    ensures
        forall|j: int| 0 <= j < finite_of(values).len() ==> (#[trigger] finite_of(values)[j]).finite(),
        values[k].finite() ==> exists|j: int|
            0 <= j < finite_of(values).len() && #[trigger] finite_of(values)[j] == values[k],
    decreases values.len(),
{
    let rest = values.drop_last();
    let f = finite_of(rest);
    if rest.len() > 0 {
        lemma_finite_of(rest, if k < rest.len() {
            k
        } else {
            0
        });
    } else {
        assert(f.len() == 0);
    }
    let all = finite_of(values);
    assert forall|j: int| 0 <= j < all.len() implies (#[trigger] all[j]).finite() by {
        if j < f.len() {
            assert(f[j].finite());
        }
    }
    if values[k].finite() {
        if k < rest.len() {
            assert(rest[k] == values[k]);
            let j = choose|j: int| 0 <= j < f.len() && #[trigger] f[j] == rest[k];
            assert(all[j] == f[j]);
        } else {
            assert(all[all.len() - 1] == values[k]);
        }
    }
}

/// The pixel of a value and the way back are rounded as doubles are, and nothing overflows.
pub open spec fn encodes_nearly<F: Fn(Op, Double, Double) -> Double>(
    ar: Arithmetic<F>,
    v: Double,
    min: Double,
    span: Double,
) -> bool {
    let d = ar.minus(v, min);
    let q = ar.over(d, span);
    let t = ar.times(q, num(STEPS));
    let scale = ar.over(span, num(STEPS));
    let p = Double::count(pixel_of(ar, v, min, span) as nat);
    &&& subtracts_nearly(ar, v, min)
    &&& divides_nearly(ar, d, span)
    &&& multiplies_nearly(ar, q, num(STEPS))
    &&& adds_nearly(ar, num(ONE), t)
    &&& divides_nearly(ar, span, num(STEPS))
    &&& subtracts_nearly(ar, min, scale)
    &&& multiplies_nearly(ar, p, scale)
    &&& adds_nearly(ar, ar.times(p, scale), ar.minus(min, scale))
}

/// The double of the number of steps.
proof fn lemma_steps()
    ensures
        num(STEPS) == Double::count(STEP_COUNT as nat),
        units(num(STEPS)) == STEP_COUNT * unity(),
        num(STEPS).finite(),
{
    counts_have_their_value(STEP_COUNT as nat);
    reveal_with_fuel(Double::scaled, 40);
}

/// The quotient `q` of a distance near `d0` by the span, up to rounding.
proof fn lemma_quotient(u: int, k: int, d0: int, d: int, s: int, q: int)
    requires
        k == precision(),
        u >= k,
        s > 0,
        0 <= d0 <= 2 * s,
        within((d - d0) * k, d0),
        within(2 * (q * s - d * u) * k, 2 * (d * u) + k * s),
    ensures
        0 <= d <= 2 * d0,
        0 <= q <= 9 * u,
        within(2 * k * (q * s - d0 * u), 13 * (u * s)),
{
    assert(0 <= d <= 2 * d0) by (nonlinear_arith)
        requires
            -d0 <= (d - d0) * k <= d0,
            0 <= d0,
            k == 0x20_0000_0000_0000,
    ;
    let e = q * s - d * u;
    assert(d * u <= 2 * (d0 * u)) by (nonlinear_arith)
        requires
            d <= 2 * d0,
            u > 0,
    ;
    assert(d0 * u <= 2 * (u * s)) by (nonlinear_arith)
        requires
            d0 <= 2 * s,
            u > 0,
    ;
    assert(k * s <= u * s) by (nonlinear_arith)
        requires
            k <= u,
            s > 0,
    ;
    assert(q * s - d0 * u == e + (d - d0) * u) by (nonlinear_arith)
        requires
            e == q * s - d * u,
    ;
    assert(within(k * ((d - d0) * u), d0 * u)) by (nonlinear_arith)
        requires
            -d0 <= (d - d0) * k <= d0,
            u > 0,
    ;
    assert(2 * k * (q * s - d0 * u) == 2 * e * k + 2 * (k * ((d - d0) * u))) by (nonlinear_arith)
        requires
            q * s - d0 * u == e + (d - d0) * u,
    ;
    assert(0 <= d * u) by (nonlinear_arith)
        requires
            d >= 0,
            u > 0,
    ;
    assert(q >= 0) by (nonlinear_arith)
        requires
            2 * (q * s - d * u) * k >= -(2 * (d * u) + k * s),
            d * u >= 0,
            k == 0x20_0000_0000_0000,
            s > 0,
    ;
    assert(q <= 9 * u) by (nonlinear_arith)
        requires
            2 * k * (q * s - d0 * u) <= 13 * (u * s),
            d0 * u <= 2 * (u * s),
            k == 0x20_0000_0000_0000,
            u > 0,
            s > 0,
    ;
}

/// The position `x` of a pixel, up to rounding.
proof fn lemma_position(u: int, k: int, n: int, d0: int, s: int, q: int, t: int, x: int)
    requires
        k == precision(),
        n == STEP_COUNT,
        u >= k,
        s > 0,
        0 <= q <= 9 * u,
        within(2 * k * (q * s - d0 * u), 13 * (u * s)),
        within(2 * (t * u - q * (n * u)) * k, 2 * (q * (n * u)) + k * u),
        within((x - (u + t)) * k, size(u + t)),
    ensures
        0 <= t,
        x * k >= u * (k - 1),
        within(k * ((x - u) * s - n * (d0 * u)), 60 * n * (u * s)),
{
    let g = t - n * q;
    assert(within(2 * k * g, 2 * n * q + k)) by (nonlinear_arith)
        requires
            -(2 * (q * (n * u)) + k * u) <= 2 * (t * u - q * (n * u)) * k <= 2 * (q * (n * u)) + k
                * u,
            g == t - n * q,
            u > 0,
    ;
    assert(n * q >= 0 && n * q <= 9 * n * u) by (nonlinear_arith)
        requires
            0 <= q <= 9 * u,
            n == 65534,
    ;
    assert(t >= 0 && t <= 19 * n * u) by (nonlinear_arith)
        requires
            -(2 * n * q + k) <= 2 * k * g <= 2 * n * q + k,
            g == t - n * q,
            0 <= n * q <= 9 * n * u,
            k == 0x20_0000_0000_0000,
            u >= k,
            n == 65534,
    ;
    let h = x - u - n * q;
    assert(within(2 * k * h, 60 * n * u)) by (nonlinear_arith)
        requires
            h == (x - (u + t)) + g,
            -(u + t) <= (x - (u + t)) * k <= u + t,
            -(2 * n * q + k) <= 2 * k * g <= 2 * n * q + k,
            0 <= n * q <= 9 * n * u,
            0 <= t <= 19 * n * u,
            u >= k,
            k > 0,
            n == 65534,
    ;
    assert(x * k >= u * (k - 1)) by (nonlinear_arith)
        requires
            (x - (u + t)) * k >= -(u + t),
            t >= 0,
            k == 0x20_0000_0000_0000,
    ;
    let e = q * s - d0 * u;
    assert((x - u) * s - n * (d0 * u) == h * s + n * e) by (nonlinear_arith)
        requires
            h == x - u - n * q,
            e == q * s - d0 * u,
    ;
    assert(within(2 * k * (h * s), 60 * n * (u * s))) by (nonlinear_arith)
        requires
            -(60 * n * u) <= 2 * k * h <= 60 * n * u,
            s > 0,
    ;
    assert(within(2 * k * (n * e), 13 * n * (u * s))) by (nonlinear_arith)
        requires
            -(13 * (u * s)) <= 2 * k * e <= 13 * (u * s),
            n == 65534,
    ;
    let z = n * (u * s);
    assert(z >= 0) by (nonlinear_arith)
        requires
            z == n * (u * s),
            n > 0,
            u > 0,
            s > 0,
    ;
    assert(60 * n * (u * s) == 60 * z && 13 * n * (u * s) == 13 * z) by (nonlinear_arith)
        requires
            z == n * (u * s),
    ;
    let (a, b) = (h * s, n * e);
    assert(2 * (k * (a + b)) == 2 * k * a + 2 * k * b) by (nonlinear_arith);
    assert(within(k * (a + b), 60 * z));
}

/// The pixel is the rounded position.
proof fn lemma_pixel(u: int, k: int, n: int, d0: int, s: int, x: int, r: int)
    requires
        k == precision(),
        n == STEP_COUNT,
        u > 0,
        s > 0,
        0 <= d0,
        d0 * (k - 1) <= k * s,
        x * k >= u * (k - 1),
        within(k * ((x - u) * s - n * (d0 * u)), 60 * n * (u * s)),
        within(2 * (r * u - x), u),
    ensures
        1 <= r <= n + 1,
{
    assert(r >= 1) by (nonlinear_arith)
        requires
            2 * (r * u - x) >= -u,
            x * k >= u * (k - 1),
            k == 0x20_0000_0000_0000,
            u > 0,
    ;
    // The position is past the last pixel by less than half of one.
    let y = x - u;
    assert(k * (y * s) <= k * (n * (d0 * u)) + 60 * n * (u * s)) by (nonlinear_arith)
        requires
            k * (y * s - n * (d0 * u)) <= 60 * n * (u * s),
    ;
    assert(d0 * k <= k * s + 2 * s) by (nonlinear_arith)
        requires
            d0 * (k - 1) <= k * s,
            k == 0x20_0000_0000_0000,
            s > 0,
            0 <= d0,
    ;
    assert(k * (n * (d0 * u)) <= (k + 2) * (n * (u * s))) by (nonlinear_arith)
        requires
            d0 * k <= k * s + 2 * s,
            n > 0,
            u > 0,
    ;
    assert(k * y <= (k + 62) * (n * u)) by (nonlinear_arith)
        requires
            k * (y * s) <= (k + 2) * (n * (u * s)) + 60 * n * (u * s),
            s > 0,
    ;
    assert(r <= n + 1) by (nonlinear_arith)
        requires
            2 * (r * u - x) <= u,
            y == x - u,
            k * y <= (k + 62) * (n * u),
            k == 0x20_0000_0000_0000,
            n == 65534,
            u > 0,
    ;
}

/// The scale, up to rounding.
proof fn lemma_scale(u: int, k: int, n: int, s: int, sc: int)
    requires
        k == precision(),
        n == STEP_COUNT,
        u > 0,
        s >= 0x10_0000_0000_0000,
        within(2 * (sc * (n * u) - s * u) * k, 2 * (s * u) + k * (n * u)),
    ensures
        0 < sc <= s,
        n * sc <= 2 * s,
        within(2 * k * (n * sc - s), 2 * s + k * n),
{
    let d = n * sc - s;
    assert(within(2 * k * d, 2 * s + k * n)) by (nonlinear_arith)
        requires
            -(2 * (s * u) + k * (n * u)) <= 2 * (sc * (n * u) - s * u) * k <= 2 * (s * u) + k * (n
                * u),
            d == n * sc - s,
            u > 0,
    ;
    assert(n * sc <= 2 * s && n * sc > 0) by (nonlinear_arith)
        requires
            -(2 * s + k * n) <= 2 * k * d <= 2 * s + k * n,
            d == n * sc - s,
            s >= 0x10_0000_0000_0000,
            k == 0x20_0000_0000_0000,
            n == 65534,
    ;
    assert(0 < sc <= s) by (nonlinear_arith)
        requires
            0 < n * sc <= 2 * s,
            n == 65534,
    ;
}

/// What the steps up to a pixel are off from the distance, up to rounding.
proof fn lemma_steps_off(u: int, k: int, n: int, d0: int, s: int, sc: int, x: int, r: int)
    requires
        k == precision(),
        n == STEP_COUNT,
        u > 0,
        s > 0,
        1 <= r <= n + 1,
        within(k * ((x - u) * s - n * (d0 * u)), 60 * n * (u * s)),
        within(2 * (r * u - x), u),
        within(2 * k * (n * sc - s), 2 * s + k * n),
    ensures
        within(2 * k * n * ((r - 1) * sc - d0), (k + 130 * n) * s + k * n * n),
{
    let e = (x - u) * s - n * (d0 * u);
    let rho = r * u - x;
    let delta = n * sc - s;
    let g = (r - 1) * sc - d0;
    let a = r - 1;
    assert(x - u == a * u - rho) by (nonlinear_arith)
        requires
            rho == r * u - x,
            a == r - 1,
    ;
    assert((x - u) * s == a * (u * s) - rho * s) by (nonlinear_arith)
        requires
            x - u == a * u - rho,
    ;
    assert((n * u) * (a * sc) == (a * u) * (n * sc)) by (nonlinear_arith);
    assert((a * u) * (s + delta) == a * (u * s) + a * (u * delta)) by (nonlinear_arith);
    assert(n * sc == s + delta);
    assert(n * u * g == (n * u) * (a * sc) - n * (d0 * u)) by (nonlinear_arith)
        requires
            g == a * sc - d0,
    ;
    assert(n * u * g == e + rho * s + (r - 1) * (u * delta));
    assert(within(2 * k * (rho * s), k * (u * s))) by (nonlinear_arith)
        requires
            -u <= 2 * rho <= u,
            k > 0,
            s > 0,
    ;
    let b = 2 * s + k * n;
    assert(within(2 * k * (u * delta), u * b)) by (nonlinear_arith)
        requires
            -b <= 2 * k * delta <= b,
            u > 0,
    ;
    assert(u * b >= 0) by (nonlinear_arith)
        requires
            u > 0,
            b == 2 * s + k * n,
            s > 0,
            k > 0,
            n > 0,
    ;
    let last = 2 * k * (u * delta);
    assert(within(2 * k * ((r - 1) * (u * delta)), n * (u * b))) by (nonlinear_arith)
        requires
            -(u * b) <= last <= u * b,
            last == 2 * k * (u * delta),
            0 <= r - 1 <= n,
            u * b >= 0,
    ;
    let bound = 120 * n * (u * s) + k * (u * s) + n * (u * b);
    assert(within(2 * k * (n * u * g), bound)) by (nonlinear_arith)
        requires
            n * u * g == e + rho * s + (r - 1) * (u * delta),
            -(60 * n * (u * s)) <= k * e <= 60 * n * (u * s),
            -(k * (u * s)) <= 2 * k * (rho * s) <= k * (u * s),
            -(n * (u * b)) <= 2 * k * ((r - 1) * (u * delta)) <= n * (u * b),
            bound == 120 * n * (u * s) + k * (u * s) + n * (u * b),
    ;
    let want = (k + 122 * n) * s + k * n * n;
    let (us, kn) = (u * s, k * n);
    assert(u * b == 2 * us + u * kn) by (nonlinear_arith)
        requires
            b == 2 * s + kn,
            us == u * s,
    ;
    assert(n * (u * b) == 2 * (n * us) + n * (u * kn)) by (nonlinear_arith)
        requires
            u * b == 2 * us + u * kn,
    ;
    assert(120 * n * us == 120 * (n * us)) by (nonlinear_arith);
    assert(u * ((k + 122 * n) * s) == k * us + 122 * (n * us)) by (nonlinear_arith)
        requires
            us == u * s,
    ;
    assert(u * (k * n * n) == n * (u * kn)) by (nonlinear_arith)
        requires
            kn == k * n,
    ;
    assert(u * want == u * ((k + 122 * n) * s) + u * (k * n * n)) by (nonlinear_arith)
        requires
            want == (k + 122 * n) * s + k * n * n,
    ;
    assert(bound == u * want);
    assert(within(2 * k * n * g, want)) by (nonlinear_arith)
        requires
            -(u * want) <= 2 * k * (n * u * g) <= u * want,
            u > 0,
    ;
    assert(want <= (k + 130 * n) * s + k * n * n) by (nonlinear_arith)
        requires
            want == (k + 122 * n) * s + k * n * n,
            n > 0,
            s > 0,
    ;
}

/// What the way back adds, up to rounding: `m` of the pixel, `off` of the offset.
proof fn lemma_way_back(
    u: int,
    k: int,
    n: int,
    s: int,
    sc: int,
    r: int,
    lo: int,
    m: int,
    off: int,
    back: int,
)
    requires
        k == precision(),
        n == STEP_COUNT,
        u > 0,
        s >= 0x10_0000_0000_0000,
        0 < sc <= s,
        n * sc <= 2 * s,
        1 <= r <= n + 1,
        within(2 * (m * u - (r * u) * sc) * k, 2 * ((r * u) * sc) + k * u),
        within((off - (lo - sc)) * k, size(lo - sc)),
        within((back - (m + off)) * k, size(m + off)),
    ensures
        within(2 * k * (back - (r * sc + lo - sc)), 40 * s + 8 * size(lo) + k),
{
    let h1 = m - r * sc;
    let h2 = off - (lo - sc);
    let h3 = back - (m + off);
    assert(0 < r * sc <= 3 * s) by (nonlinear_arith)
        requires
            1 <= r <= n + 1,
            0 < sc <= s,
            n * sc <= 2 * s,
    ;
    assert(within(2 * k * h1, 2 * (r * sc) + k)) by (nonlinear_arith)
        requires
            -(2 * ((r * u) * sc) + k * u) <= 2 * (m * u - (r * u) * sc) * k <= 2 * ((r * u) * sc)
                + k * u,
            h1 == m - r * sc,
            u > 0,
    ;
    assert(within(h1, 4 * s)) by (nonlinear_arith)
        requires
            -(2 * (r * sc) + k) <= 2 * k * h1 <= 2 * (r * sc) + k,
            0 < r * sc <= 3 * s,
            k == 0x20_0000_0000_0000,
            s >= 0x10_0000_0000_0000,
    ;
    assert(size(lo - sc) <= size(lo) + s);
    assert(within(h2, size(lo) + s)) by (nonlinear_arith)
        requires
            -(size(lo) + s) <= h2 * k <= size(lo) + s,
            size(lo) >= 0,
            s > 0,
            k == 0x20_0000_0000_0000,
    ;
    assert(size(m + off) <= 9 * s + 2 * size(lo));
    assert(2 * k * (h1 + h2 + h3) == 2 * k * h1 + 2 * (h2 * k) + 2 * (h3 * k)) by (nonlinear_arith);
}

/// What is read back, compared with what was written.
pub open spec fn reads_nearby(lo: int, s: int, off: int) -> bool {
    let n = STEP_COUNT as int;
    &&& within(
        2 * precision() * n * off,
        (precision() + 200 * n) * s + 8 * n * size(lo) + precision() * (n * n + n),
    )
    &&& size(lo) <= 2_000_000 * unity() ==> within(1_000_000_000 * n * off, 1_000_000_000 * s + n * unity())
}

/// A value between `min` and the greatest value decodes to within a step.
proof fn lemma_decodes_nearby<F: Fn(Op, Double, Double) -> Double>(
    ar: Arithmetic<F>,
    v: Double,
    min: Double,
    span: Double,
)
    requires
        encodes_nearly(ar, v, min, span),
        units(min) <= units(v),
        (units(v) - units(min)) * (precision() - 1) <= precision() * units(span),
        units(span) >= 0x10_0000_0000_0000,
    ensures
        ({
            let scale = ar.over(span, num(STEPS));
            let p = Double::count(pixel_of(ar, v, min, span) as nat);
            let back = ar.plus(ar.times(p, scale), ar.minus(min, scale));
            reads_nearby(units(min), units(span), units(back) - units(v))
        }),
{
    let d = ar.minus(v, min);
    let q = ar.over(d, span);
    let t = ar.times(q, num(STEPS));
    let x = ar.plus(num(ONE), t);
    let scale = ar.over(span, num(STEPS));
    let px = pixel_of(ar, v, min, span);
    let p = Double::count(px as nat);
    let m = ar.times(p, scale);
    let off = ar.minus(min, scale);
    let back = ar.plus(m, off);
    let (u, k, n) = (unity(), precision(), STEP_COUNT as int);
    lemma_steps();
    unity_is_positive();
    vstd::arithmetic::power2::lemma2_to64_rest();
    vstd::arithmetic::power2::lemma_pow2_strictly_increases(53, 1074);
    assert(u >= k);
    counts_have_their_value(1);
    counts_have_their_value(px as nat);
    rounded_is_near(x);
    let (lo, d0, s, sc, r) = (
        units(min),
        units(v) - units(min),
        units(span),
        units(scale),
        x.rounded(),
    );
    assert(d0 <= 2 * s) by (nonlinear_arith)
        requires
            d0 * (k - 1) <= k * s,
            k == 0x20_0000_0000_0000,
            s > 0,
    ;
    assert(units(d) >= 0) by (nonlinear_arith)
        requires
            (units(d) - d0) * k >= -d0,
            d0 >= 0,
            k == 0x20_0000_0000_0000,
    ;
    assert(size(units(d) * u) == units(d) * u) by (nonlinear_arith)
        requires
            units(d) >= 0,
            u > 0,
    ;
    lemma_quotient(u, k, d0, units(d), s, units(q));
    assert(size(units(q) * (n * u)) == units(q) * (n * u)) by (nonlinear_arith)
        requires
            units(q) >= 0,
            u > 0,
            n > 0,
    ;
    lemma_position(u, k, n, d0, s, units(q), units(t), units(x));
    lemma_pixel(u, k, n, d0, s, units(x), r);
    assert(px == r);
    assert(size(s * u) == s * u) by (nonlinear_arith)
        requires
            s > 0,
            u > 0,
    ;
    lemma_scale(u, k, n, s, sc);
    lemma_steps_off(u, k, n, d0, s, sc, units(x), r);
    assert(size((r * u) * sc) == (r * u) * sc) by (nonlinear_arith)
        requires
            r > 0,
            u > 0,
            sc > 0,
    ;
    lemma_way_back(u, k, n, s, sc, r, lo, units(m), units(off), units(back));
    let gap = units(back) - units(v);
    let (g, h) = ((r - 1) * sc - d0, units(back) - (r * sc + lo - sc));
    assert(gap == g + h) by (nonlinear_arith)
        requires
            gap == units(back) - (lo + d0),
            g == (r - 1) * sc - d0,
            h == units(back) - (r * sc + lo - sc),
    ;
    lemma_adds_up(u, k, n, s, lo, g, h);
}

proof fn lemma_adds_up(u: int, k: int, n: int, s: int, lo: int, g: int, h: int)
    requires
        u == unity(),
        u >= k,
        k == precision(),
        n == STEP_COUNT,
        s >= 0x10_0000_0000_0000,
        within(2 * k * n * g, (k + 130 * n) * s + k * n * n),
        within(2 * k * h, 40 * s + 8 * size(lo) + k),
    ensures
        reads_nearby(lo, s, g + h),
{
    let b = 40 * s + 8 * size(lo) + k;
    assert(within(2 * k * n * h, n * b)) by (nonlinear_arith)
        requires
            -b <= 2 * k * h <= b,
            n == 65534,
    ;
    let all = (k + 200 * n) * s + 8 * n * size(lo) + k * (n * n + n);
    assert((k + 130 * n) * s + k * n * n + n * b <= all) by (nonlinear_arith)
        requires
            b == 40 * s + 8 * size(lo) + k,
            all == (k + 200 * n) * s + 8 * n * size(lo) + k * (n * n + n),
            n > 0,
            s > 0,
    ;
    let off = g + h;
    assert(2 * k * n * off == 2 * k * n * g + 2 * k * n * h) by (nonlinear_arith)
        requires
            off == g + h,
    ;
    assert(within(2 * k * n * off, all));
    if size(lo) <= 2_000_000 * u {
        vstd::arithmetic::power2::lemma2_to64();
        vstd::arithmetic::power2::lemma_pow2_adds(64, 64);
        vstd::arithmetic::power2::lemma_pow2_strictly_increases(128, 1074);
        lemma_billionth(u, k, n, s, size(lo), off, all);
    }
}

/// The bound is no more than a step and a billionth.
proof fn lemma_billionth(u: int, k: int, n: int, s: int, z: int, off: int, all: int)
    requires
        k == precision(),
        n == STEP_COUNT,
        u >= 0x40_0000_0000_0000_0000_0000_0000,
        s > 0,
        0 <= z <= 2_000_000 * u,
        all == (k + 200 * n) * s + 8 * n * z + k * (n * n + n),
        within(2 * k * n * off, all),
    ensures
        within(1_000_000_000 * n * off, 1_000_000_000 * s + n * u),
{
    let w = n * off;
    let b = 1_000_000_000 * s + n * u;
    assert(2 * k * n * off == 2 * k * w) by (nonlinear_arith)
        requires
            w == n * off,
    ;
    assert(1_000_000_000 * all <= 2 * k * b) by (nonlinear_arith)
        requires
            all == (k + 200 * n) * s + 8 * n * z + k * (n * n + n),
            b == 1_000_000_000 * s + n * u,
            k == 0x20_0000_0000_0000,
            n == 65534,
            0 <= z <= 2_000_000 * u,
            u >= 0x40_0000_0000_0000_0000_0000_0000,
            s > 0,
    ;
    assert(within(1_000_000_000 * w, b)) by (nonlinear_arith)
        requires
            -all <= 2 * k * w <= all,
            1_000_000_000 * all <= 2 * k * b,
            k > 0,
    ;
    assert(1_000_000_000 * n * off == 1_000_000_000 * w) by (nonlinear_arith)
        requires
            w == n * off,
    ;
}

/// A raster that was written as one tile reads back within a step of what was written, up
/// to rounding. The steps divide the span of the values into 65534; a value is off by half
/// of one and little more, 8 parts in 2 to the 54th of the least value among it. Where the
/// least value is no greater than two million, it is off by no more than one step and a
/// billionth.
pub proof fn written_raster_reads_back_nearby<F: Fn(Op, Double, Double) -> Double>(
    ar: Arithmetic<F>,
    nx: usize,
    ny: usize,
    values: Seq<Double>,
    map: PixelMap,
    tile: Tile,
    k: int,
)
    requires
        0 < nx,
        0 < ny,
        values.len() == nx * ny,
        tile.column == 0,
        tile.row == 0,
        map.null.eq_value(num(0)),
        map.scale == ar.over(span_of(ar, values), num(STEPS)),
        map.offset == ar.minus(least_of(finite_of(values)), map.scale),
        0 <= k < nx * ny,
        values[k].finite(),
        subtracts_nearly(ar, greatest_of(finite_of(values)), least_of(finite_of(values))),
        encodes_nearly(ar, values[k], least_of(finite_of(values)), span_of(ar, values)),
    ensures
        ({
            let m = TileMatrix { columns: 1, rows: 1, width: nx, height: ny };
            let px = image_of(ar, nx as nat, ny as nat, values);
            let back = grid_values(ar, m, map, seq![tile], seq![px]);
            &&& back[k].finite()
            &&& reads_nearby(
                units(least_of(finite_of(values))),
                units(span_of(ar, values)),
                units(back[k]) - units(values[k]),
            )
        }),
{
    let v = values[k];
    let f = finite_of(values);
    let (min, max, span) = (least_of(f), greatest_of(f), span_of(ar, values));
    written_raster_reads_back(ar, nx, ny, values, map, tile, k);
    lemma_finite_of(values, k);
    let j = choose|j: int| 0 <= j < f.len() && #[trigger] f[j] == v;
    lemma_extremes(f, j);
    values_order_as_doubles(min, v);
    values_order_as_doubles(v, max);
    let wide = ar.minus(max, min);
    values_order_as_doubles(wide, num(LEAST));
    lemma_least();
    assert(units(span) >= units(wide) && units(span) >= units(num(LEAST)));
    let (w, d0, s, c) = (
        units(max) - units(min),
        units(v) - units(min),
        units(span),
        precision(),
    );
    assert(d0 * (c - 1) <= c * s) by (nonlinear_arith)
        requires
            (units(wide) - w) * c >= -w,
            0 <= d0 <= w,
            units(wide) <= s,
            c == 0x20_0000_0000_0000,
    ;
    lemma_decodes_nearby(ar, v, min, span);
    let p = pixel_of(ar, v, min, span);
    counts_have_their_value(p as nat);
    Double::counts_are_positive(p as nat);
    assert(!Double::count(p as nat).eq_value(map.null));
}

/// The smallest positive normal number.
proof fn lemma_least()
    ensures
        units(num(LEAST)) == 0x10_0000_0000_0000,
        num(LEAST).finite(),
{
    vstd::arithmetic::power2::lemma2_to64();
    let d = num(LEAST);
    assert(d.exponent() == 1 && d.mantissa() == 0x10_0000_0000_0000);
    assert((d.scale() - 1) as nat == 0);
    let (m, p) = (d.mantissa(), vstd::arithmetic::power2::pow2(0));
    assert(m * p == m) by (nonlinear_arith)
        requires
            p == 1,
    ;
}

} // verus!

//! Doubles as IEEE 754 binary64 bit patterns.
//!
//! [`Double`] carries a double through the library without computing on it. What
//! the library decides about a double (is it finite, is it positive, which of
//! two is smaller) is decided here on the bits.

use vstd::arithmetic::power2::pow2;
use vstd::prelude::*;

verus! {

/// Bit pattern of the sign alone (negative zero).
pub const SIGN: u64 = 0x8000_0000_0000_0000;

/// Bit pattern of positive infinity; larger magnitudes are NaN.
pub const INFINITE: u64 = 0x7FF0_0000_0000_0000;

/// Bit pattern of the quiet NaN.
pub const NOT_A_NUMBER: u64 = 0x7FF8_0000_0000_0000;

/// Bit pattern of one.
pub const ONE: u64 = 0x3FF0_0000_0000_0000;

/// Weight of the lowest exponent bit: 2 to the 52nd.
pub const HIDDEN: u64 = 0x0010_0000_0000_0000;

/// A double, held as its bit pattern.
#[derive(Clone, Copy, Debug, PartialEq, Eq, Hash, Structural)]
pub struct Double {
    /// The IEEE 754 binary64 encoding.
    pub bits: u64,
}

impl Double {
    /// Whether the sign bit is set.
    pub open spec fn negative(self) -> bool {
        self.bits >= SIGN
    }

    /// The encoding without its sign.
    pub open spec fn magnitude(self) -> int {
        if self.negative() {
            self.bits - SIGN
        } else {
            self.bits as int
        }
    }

    /// Neither a number nor an infinity.
    pub open spec fn nan(self) -> bool {
        self.magnitude() > INFINITE
    }

    /// Neither NaN nor infinite.
    pub open spec fn finite(self) -> bool {
        self.magnitude() < INFINITE
    }

    /// Position on the number line, up to an order-preserving scale; both
    /// zeros stand at 0. Meaningful for patterns that are not NaN.
    pub open spec fn place(self) -> int {
        if self.negative() {
            -self.magnitude()
        } else {
            self.magnitude()
        }
    }

    /// Position under the IEEE 754 total order: negative zero directly before
    /// zero, NaNs beyond the infinities of their sign.
    pub open spec fn total(self) -> int {
        if self.negative() {
            -self.magnitude() - 1
        } else {
            self.magnitude()
        }
    }

    /// `self < other` as doubles compare: false when either is NaN.
    pub open spec fn below(self, other: Double) -> bool {
        !self.nan() && !other.nan() && self.place() < other.place()
    }

    /// `self <= other` as doubles compare: false when either is NaN.
    pub open spec fn at_most(self, other: Double) -> bool {
        !self.nan() && !other.nan() && self.place() <= other.place()
    }

    /// `self == other` as doubles compare: both zeros agree, NaN never does.
    pub open spec fn equals(self, other: Double) -> bool {
        !self.nan() && !other.nan() && self.place() == other.place()
    }

    /// Strictly greater than zero.
    pub open spec fn positive(self) -> bool {
        !self.nan() && self.place() > 0
    }

    /// Exponent field of the encoding (sign excluded).
    pub open spec fn exponent(self) -> nat {
        (self.magnitude() / HIDDEN as int) as nat
    }

    /// Significand of a normal number, its leading bit included.
    pub open spec fn significand(self) -> nat {
        (HIDDEN + self.magnitude() % HIDDEN as int) as nat
    }

    /// The double is exactly `m` times 2 to the power `base - 1075`: a normal
    /// number whose significand is `m` shifted to full width, or zero.
    pub open spec fn exactly(self, m: nat, base: nat) -> bool {
        if m == 0 {
            self.bits == 0
        } else {
            &&& !self.negative()
            &&& 1 <= self.exponent() <= 2046
            &&& self.exponent() <= base
            &&& self.significand() == m * pow2((base - self.exponent()) as nat)
        }
    }

    /// The double `m` times 2 to the power `base - 1075`, for `m` below 2 to
    /// the 53rd and `base` large enough.
    pub open spec fn scaled(m: nat, base: nat) -> Double
        decreases base,
    {
        if m == 0 {
            Double { bits: 0 }
        } else if m >= HIDDEN || base == 0 {
            Double { bits: (base * HIDDEN + (m - HIDDEN)) as u64 }
        } else {
            Double::scaled(2 * m, (base - 1) as nat)
        }
    }

    /// The double `m` times 2 to the power `base - 1075`, which is exact.
    pub fn from_scaled(m: u64, base: u64) -> (r: Double)
        requires
            m < 2 * HIDDEN,
            53 <= base <= 2046,
        ensures
            r == Double::scaled(m as nat, base as nat),
            r.exactly(m as nat, base as nat),
            m > 0 ==> r.exponent() + 52 >= base,
    {
        if m == 0 {
            return Double { bits: 0 };
        }
        let mut f: u64 = m;
        let mut e: u64 = base;
        proof {
            vstd::arithmetic::power2::lemma2_to64();
            assert(m * pow2(0) == m) by (nonlinear_arith)
                requires
                    pow2(0) == 1,
            ;
        }
        while f < HIDDEN
            invariant
                0 < m < 2 * HIDDEN,
                m <= f < 2 * HIDDEN,
                53 <= base <= 2046,
                e <= base,
                base <= e + 52,
                f == m * pow2((base - e) as nat),
                f >= pow2((base - e) as nat),
                Double::scaled(f as nat, e as nat) == Double::scaled(m as nat, base as nat),
            decreases 2 * HIDDEN - f,
        {
            proof {
                let k = (base - e) as nat;
                vstd::arithmetic::power2::lemma_pow2_unfold(k + 1);
                assert(2 * (m * pow2(k)) == m * (2 * pow2(k))) by (nonlinear_arith);
                if k == 52 {
                    vstd::arithmetic::power2::lemma2_to64_rest();
                }
            }
            f = f * 2;
            e = e - 1;
        }
        let bits: u64 = e * HIDDEN + (f - HIDDEN);
        proof {
            assert(bits as int / HIDDEN as int == e && bits as int % HIDDEN as int == f - HIDDEN);
        }
        Double { bits }
    }

    /// A multiple of a power of two is one double.
    pub proof fn exact_is_unique(a: Double, b: Double, m: nat, base: nat)
        requires
            a.exactly(m, base),
            b.exactly(m, base),
        ensures
            a == b,
    {
        if m > 0 {
            Double::lemma_no_narrower(a, b, m, base);
            Double::lemma_no_narrower(b, a, m, base);
        }
    }

    proof fn lemma_no_narrower(a: Double, b: Double, m: nat, base: nat)
        requires
            m > 0,
            a.exactly(m, base),
            b.exactly(m, base),
        ensures
            a.exponent() >= b.exponent(),
    {
        if a.exponent() < b.exponent() {
            let ka = (base - a.exponent()) as nat;
            let kb = (base - b.exponent()) as nat;
            let more = (ka - kb) as nat;
            vstd::arithmetic::power2::lemma_pow2_adds(kb, more);
            vstd::arithmetic::power2::lemma_pow2_unfold(more);
            vstd::arithmetic::power2::lemma_pow2_pos((more - 1) as nat);
            assert(m * pow2(ka) >= 2 * (m * pow2(kb))) by (nonlinear_arith)
                requires
                    pow2(ka) == pow2(kb) * pow2(more),
                    pow2(more) >= 2,
                    m > 0,
            ;
        }
    }

    /// The double that equals a count below 2 to the 53rd.
    pub open spec fn count(n: nat) -> Double {
        Double::scaled(n, 1075)
    }

    proof fn lemma_scaled_positive(m: nat, base: nat, k: nat)
        requires
            0 < m < 2 * HIDDEN,
            m * pow2(k) >= HIDDEN,
            k < base <= 2046,
        ensures
            Double::scaled(m, base).positive(),
            Double::scaled(m, base).finite(),
        decreases base,
    {
        if m < HIDDEN {
            vstd::arithmetic::power2::lemma2_to64();
            assert(k > 0) by (nonlinear_arith)
                requires
                    m * pow2(k) >= HIDDEN,
                    m < HIDDEN,
                    pow2(0) == 1,
            ;
            vstd::arithmetic::power2::lemma_pow2_unfold(k);
            assert(2 * m * pow2((k - 1) as nat) == m * pow2(k)) by (nonlinear_arith)
                requires
                    pow2(k) == 2 * pow2((k - 1) as nat),
            ;
            Double::lemma_scaled_positive(2 * m, (base - 1) as nat, (k - 1) as nat);
        }
    }

    /// A count that is not zero is positive and finite.
    pub proof fn counts_are_positive(n: nat)
        requires
            0 < n < 2 * HIDDEN,
        ensures
            Double::count(n).positive(),
            Double::count(n).finite(),
    {
        vstd::arithmetic::power2::lemma2_to64();
        vstd::arithmetic::power2::lemma2_to64_rest();
        assert(n * pow2(53) >= HIDDEN) by (nonlinear_arith)
            requires
                n > 0,
                pow2(53) >= HIDDEN,
        ;
        Double::lemma_scaled_positive(n, 1075, 53);
    }

    /// The double that equals a count.
    pub fn from_count(n: usize) -> (r: Double)
        requires
            n < 2 * HIDDEN,
        ensures
            r == Double::count(n as nat),
            r.exactly(n as nat, 1075),
    {
        Double::from_scaled(n as u64, 1075)
    }

    /// Integer part of the significand that gives the value together with
    /// [`Double::scale`]: the value is, up to sign, `mantissa` times 2 to the
    /// power `scale - 1075`.
    pub open spec fn mantissa(self) -> nat {
        if self.exponent() == 0 {
            self.magnitude() as nat
        } else {
            self.significand()
        }
    }

    /// Exponent that goes with [`Double::mantissa`].
    pub open spec fn scale(self) -> nat {
        if self.exponent() == 0 {
            1
        } else {
            self.exponent()
        }
    }

    /// Magnitude of a finite value, rounded down to an integer.
    pub open spec fn whole(self) -> nat {
        if self.scale() >= 1075 {
            self.mantissa() * pow2((self.scale() - 1075) as nat)
        } else {
            self.mantissa() / pow2((1075 - self.scale()) as nat)
        }
    }

    /// Whether a finite value has a fractional part.
    pub open spec fn has_fraction(self) -> bool {
        self.scale() < 1075 && self.mantissa() % pow2((1075 - self.scale()) as nat) != 0
    }

    /// Whether the fractional part of a finite value is at least one half.
    pub open spec fn has_half(self) -> bool {
        let unit = pow2((1075 - self.scale()) as nat);
        self.scale() < 1075 && 2 * (self.mantissa() % unit) >= unit
    }

    /// Nearest integer to a finite value, halves away from zero.
    pub open spec fn rounded(self) -> int {
        let n = self.whole() + if self.has_half() {
            1nat
        } else {
            0nat
        };
        if self.negative() {
            -(n as int)
        } else {
            n as int
        }
    }

    /// Greatest integer that is not above a finite value.
    pub open spec fn floored(self) -> int {
        if !self.negative() {
            self.whole() as int
        } else if self.has_fraction() {
            -(self.whole() as int) - 1
        } else {
            -(self.whole() as int)
        }
    }

    /// Smallest integer that is not below a finite value.
    pub open spec fn ceiled(self) -> int {
        if self.negative() {
            -(self.whole() as int)
        } else if self.has_fraction() {
            self.whole() as int + 1
        } else {
            self.whole() as int
        }
    }

    /// A finite value without its fractional part.
    pub open spec fn truncated(self) -> int {
        if self.negative() {
            -(self.whole() as int)
        } else {
            self.whole() as int
        }
    }

    /// `n`, kept between `lo` and `hi`.
    pub open spec fn kept(n: int, lo: int, hi: int) -> int {
        if n < lo {
            lo
        } else if n > hi {
            hi
        } else {
            n
        }
    }

    /// `n` as the nearest 64-bit integer where the double is finite; the end of
    /// its sign for an infinity, zero for NaN.
    pub open spec fn saturated(self, n: int) -> int {
        if self.nan() {
            0
        } else if !self.finite() {
            if self.negative() {
                i64::MIN as int
            } else {
                i64::MAX as int
            }
        } else {
            Double::kept(n, i64::MIN as int, i64::MAX as int)
        }
    }

    /// Magnitude rounded down, whether there is a fraction, and whether it is at
    /// least one half; the magnitude is capped at 2 to the 63rd.
    fn whole_parts(self) -> (r: (u64, bool, bool))
        requires
            self.finite(),
        ensures
            self.whole() <= i64::MAX ==> r.0 == self.whole(),
            self.whole() > i64::MAX ==> r.0 == i64::MAX + 1 && !self.has_fraction(),
            r.1 == self.has_fraction(),
            r.2 == self.has_half(),
            r.2 ==> r.0 < HIDDEN,
    {
        let mag: u64 = self.magnitude_bits();
        let field: u64 = mag / HIDDEN;
        let (m, e): (u64, u64) = if field == 0 {
            (mag, 1)
        } else {
            (HIDDEN + mag % HIDDEN, field)
        };
        assert(m == self.mantissa() && e == self.scale());
        if e >= 1075 {
            let mut v: u64 = m;
            let mut k: u64 = 1075;
            proof {
                vstd::arithmetic::power2::lemma2_to64();
                assert(m * pow2(0) == m) by (nonlinear_arith)
                    requires
                        pow2(0) == 1,
                ;
            }
            while k < e
                invariant
                    1075 <= k <= e,
                    m >= HIDDEN,
                    v == m * pow2((k - 1075) as nat),
                    v <= i64::MAX,
                    m == self.mantissa(),
                    e == self.scale(),
                decreases e - k,
            {
                proof {
                    vstd::arithmetic::power2::lemma_pow2_unfold((k + 1 - 1075) as nat);
                    let p = pow2((k - 1075) as nat);
                    assert(2 * (m * p) == m * (2 * p)) by (nonlinear_arith);
                }
                if v > 0x3FFF_FFFF_FFFF_FFFF {
                    proof {
                        let a = (k + 1 - 1075) as nat;
                        let b = (e - 1075) as nat;
                        if a < b {
                            vstd::arithmetic::power2::lemma_pow2_strictly_increases(a, b);
                        }
                        assert(m * pow2(a) <= m * pow2(b)) by (nonlinear_arith)
                            requires
                                pow2(a) <= pow2(b),
                        ;
                    }
                    return (0x8000_0000_0000_0000, false, false);
                }
                v = v * 2;
                k = k + 1;
            }
            (v, false, false)
        } else {
            let s: u64 = 1075 - e;
            if s >= 53 {
                proof {
                    vstd::arithmetic::power2::lemma2_to64();
                    vstd::arithmetic::power2::lemma2_to64_rest();
                    if s > 53 {
                        vstd::arithmetic::power2::lemma_pow2_strictly_increases(53, s as nat);
                    }
                    vstd::arithmetic::div_mod::lemma_small_mod(m as nat, pow2(s as nat));
                    vstd::arithmetic::div_mod::lemma_basic_div(m as int, pow2(s as nat) as int);
                    if s > 53 {
                        vstd::arithmetic::power2::lemma_pow2_unfold(54);
                        if s > 54 {
                            vstd::arithmetic::power2::lemma_pow2_strictly_increases(54, s as nat);
                        }
                    }
                }
                return (0, m != 0, s == 53 && m >= HIDDEN);
            }
            let mut p: u64 = 1;
            let mut k: u64 = 0;
            proof {
                vstd::arithmetic::power2::lemma2_to64();
            }
            while k < s
                invariant
                    k <= s < 53,
                    p == pow2(k as nat),
                    p <= 0x0010_0000_0000_0000,
                decreases s - k,
            {
                proof {
                    vstd::arithmetic::power2::lemma_pow2_unfold((k + 1) as nat);
                    vstd::arithmetic::power2::lemma2_to64();
                    vstd::arithmetic::power2::lemma2_to64_rest();
                    if k + 1 < 52 {
                        vstd::arithmetic::power2::lemma_pow2_strictly_increases(
                            (k + 1) as nat,
                            52,
                        );
                    }
                }
                p = p * 2;
                k = k + 1;
            }
            proof {
                vstd::arithmetic::power2::lemma_pow2_pos(s as nat);
                assert(m / p <= m) by (nonlinear_arith)
                    requires
                        p > 0,
                ;
                if s > 0 {
                    vstd::arithmetic::power2::lemma_pow2_unfold(s as nat);
                    vstd::arithmetic::power2::lemma_pow2_pos((s - 1) as nat);
                    assert(m / p <= m / 2) by (nonlinear_arith)
                        requires
                            p >= 2,
                    ;
                }
            }
            (m / p, m % p != 0, m % p >= p - m % p)
        }
    }

    /// Greatest integer that is not above the value, saturating.
    pub fn floor(self) -> (n: i64)
        ensures
            n == self.saturated(self.floored()),
    {
        if self.is_nan() {
            return 0;
        }
        if !self.is_finite() {
            return if self.bits >= SIGN {
                i64::MIN
            } else {
                i64::MAX
            };
        }
        let (w, fraction, _half): (u64, bool, bool) = self.whole_parts();
        if self.bits >= SIGN {
            if w > 0x7FFF_FFFF_FFFF_FFFF {
                i64::MIN
            } else if fraction {
                -(w as i64) - 1
            } else {
                -(w as i64)
            }
        } else if w > 0x7FFF_FFFF_FFFF_FFFF {
            i64::MAX
        } else {
            w as i64
        }
    }

    /// Smallest integer that is not below the value, saturating.
    pub fn ceil(self) -> (n: i64)
        ensures
            n == self.saturated(self.ceiled()),
    {
        if self.is_nan() {
            return 0;
        }
        if !self.is_finite() {
            return if self.bits >= SIGN {
                i64::MIN
            } else {
                i64::MAX
            };
        }
        let (w, fraction, _half): (u64, bool, bool) = self.whole_parts();
        if self.bits >= SIGN {
            if w > 0x7FFF_FFFF_FFFF_FFFF {
                i64::MIN
            } else {
                -(w as i64)
            }
        } else if w > 0x7FFF_FFFF_FFFF_FFFF {
            i64::MAX
        } else if fraction && w < 0x7FFF_FFFF_FFFF_FFFF {
            w as i64 + 1
        } else {
            w as i64
        }
    }

    /// The value without its fractional part, saturating.
    pub fn trunc(self) -> (n: i64)
        ensures
            n == self.saturated(self.truncated()),
    {
        if self.is_nan() {
            return 0;
        }
        if !self.is_finite() {
            return if self.bits >= SIGN {
                i64::MIN
            } else {
                i64::MAX
            };
        }
        let (w, _fraction, _half): (u64, bool, bool) = self.whole_parts();
        if self.bits >= SIGN {
            if w > 0x7FFF_FFFF_FFFF_FFFF {
                i64::MIN
            } else {
                -(w as i64)
            }
        } else if w > 0x7FFF_FFFF_FFFF_FFFF {
            i64::MAX
        } else {
            w as i64
        }
    }

    /// Nearest integer to the value, halves away from zero, saturating.
    pub fn round(self) -> (n: i64)
        ensures
            n == self.saturated(self.rounded()),
    {
        if self.is_nan() {
            return 0;
        }
        if !self.is_finite() {
            return if self.bits >= SIGN {
                i64::MIN
            } else {
                i64::MAX
            };
        }
        let (w, _fraction, half): (u64, bool, bool) = self.whole_parts();
        if w > 0x7FFF_FFFF_FFFF_FFFF {
            return if self.bits >= SIGN {
                i64::MIN
            } else {
                i64::MAX
            };
        }
        let n: i64 = if half {
            w as i64 + 1
        } else {
            w as i64
        };
        if self.bits >= SIGN {
            -n
        } else {
            n
        }
    }

    /// `-self`.
    pub open spec fn opposite(self) -> Double {
        if self.negative() {
            Double { bits: (self.bits - SIGN) as u64 }
        } else {
            Double { bits: (self.bits + SIGN) as u64 }
        }
    }

    /// `-self`: the sign bit is turned.
    #[verifier::when_used_as_spec(opposite)]
    pub fn neg(self) -> (r: Double)
        ensures
            r == self.opposite(),
    {
        if self.bits >= SIGN {
            Double { bits: self.bits - SIGN }
        } else {
            Double { bits: self.bits + SIGN }
        }
    }

    /// Absolute value.
    pub open spec fn unsigned(self) -> Double {
        Double { bits: self.magnitude() as u64 }
    }

    /// Absolute value: the sign bit is cleared.
    #[verifier::when_used_as_spec(unsigned)]
    pub fn abs(self) -> (r: Double)
        ensures
            r == self.unsigned(),
            !r.negative(),
    {
        Double { bits: self.magnitude_bits() }
    }

    /// The value kept between two bounds; NaN stays.
    pub open spec fn bounded(self, lo: Double, hi: Double) -> Double {
        if self.below(lo) {
            lo
        } else if hi.below(self) {
            hi
        } else {
            self
        }
    }

    /// Keeps the value between two bounds; NaN stays.
    #[verifier::when_used_as_spec(bounded)]
    pub fn clamp(self, lo: Double, hi: Double) -> (r: Double)
        ensures
            r == self.bounded(lo, hi),
    {
        if self.lt(lo) {
            lo
        } else if hi.lt(self) {
            hi
        } else {
            self
        }
    }

    /// A value for which there is no number.
    pub fn not_a_number() -> (r: Double)
        ensures
            r == (Double { bits: NOT_A_NUMBER }),
            r.nan(),
    {
        Double { bits: NOT_A_NUMBER }
    }

    /// The double with this encoding.
    pub fn from_bits(bits: u64) -> (r: Double)
        ensures
            r.bits == bits,
    {
        Double { bits }
    }

    /// Positive zero.
    pub fn zero() -> (r: Double)
        ensures
            r.bits == 0,
    {
        Double { bits: 0 }
    }

    /// Positive infinity.
    pub fn infinity() -> (r: Double)
        ensures
            r.bits == INFINITE,
    {
        Double { bits: INFINITE }
    }

    /// Negative infinity.
    pub fn neg_infinity() -> (r: Double)
        ensures
            r.bits == SIGN + INFINITE,
    {
        Double { bits: 0xFFF0_0000_0000_0000 }
    }

    fn magnitude_bits(self) -> (m: u64)
        ensures
            m == self.magnitude(),
    {
        if self.bits >= SIGN {
            self.bits - SIGN
        } else {
            self.bits
        }
    }

    /// Whether this is NaN.
    #[verifier::when_used_as_spec(nan)]
    pub fn is_nan(self) -> (b: bool)
        ensures
            b == self.nan(),
    {
        self.magnitude_bits() > INFINITE
    }

    /// Whether this is neither NaN nor infinite.
    #[verifier::when_used_as_spec(finite)]
    pub fn is_finite(self) -> (b: bool)
        ensures
            b == self.finite(),
    {
        self.magnitude_bits() < INFINITE
    }

    /// Whether this is strictly greater than zero.
    #[verifier::when_used_as_spec(positive)]
    pub fn is_positive(self) -> (b: bool)
        ensures
            b == self.positive(),
    {
        self.bits != 0 && self.bits <= INFINITE
    }

    fn place_key(self) -> (k: i64)
        ensures
            k == self.place(),
    {
        if self.bits >= SIGN {
            -((self.bits - SIGN) as i64)
        } else {
            self.bits as i64
        }
    }

    /// The key whose integer order is the total order of doubles.
    pub fn total_key(self) -> (k: i64)
        ensures
            k == self.total(),
    {
        if self.bits >= SIGN {
            -((self.bits - SIGN) as i64) - 1
        } else {
            self.bits as i64
        }
    }

    /// `self < other`.
    #[verifier::when_used_as_spec(below)]
    pub fn lt(self, other: Double) -> (b: bool)
        ensures
            b == self.below(other),
    {
        !self.is_nan() && !other.is_nan() && self.place_key() < other.place_key()
    }

    /// `self <= other`.
    #[verifier::when_used_as_spec(at_most)]
    pub fn le(self, other: Double) -> (b: bool)
        ensures
            b == self.at_most(other),
    {
        !self.is_nan() && !other.is_nan() && self.place_key() <= other.place_key()
    }

    /// `self == other`.
    #[verifier::when_used_as_spec(equals)]
    pub fn eq_value(self, other: Double) -> (b: bool)
        ensures
            b == self.equals(other),
    {
        !self.is_nan() && !other.is_nan() && self.place_key() == other.place_key()
    }

    /// The smaller of two doubles; a NaN loses against a number, and of equal
    /// doubles the first is kept.
    #[verifier::when_used_as_spec(lesser)]
    pub fn min(self, other: Double) -> (r: Double)
        ensures
            r == self.lesser(other),
    {
        if self.is_nan() || other.lt(self) {
            other
        } else {
            self
        }
    }

    /// What [`Double::min`] returns.
    pub open spec fn lesser(self, other: Double) -> Double {
        if self.nan() || other.below(self) {
            other
        } else {
            self
        }
    }

    /// The larger of two doubles; a NaN loses against a number, and of equal
    /// doubles the first is kept.
    #[verifier::when_used_as_spec(greater)]
    pub fn max(self, other: Double) -> (r: Double)
        ensures
            r == self.greater(other),
    {
        if self.is_nan() || self.lt(other) {
            other
        } else {
            self
        }
    }

    /// What [`Double::max`] returns.
    pub open spec fn greater(self, other: Double) -> Double {
        if self.nan() || self.below(other) {
            other
        } else {
            self
        }
    }
}

/// Two doubles with the same place under the total order are the same bits.
pub proof fn total_order_is_injective(a: Double, b: Double)
    ensures
        a.total() == b.total() <==> a == b,
{
}

/// On numbers of one sign class that compare strictly, the total order and
/// the order of doubles agree.
pub proof fn lemma_total_refines_below(a: Double, b: Double)
    requires
        !a.nan(),
        !b.nan(),
    ensures
        a.below(b) ==> a.total() < b.total(),
        a.total() <= b.total() ==> a.at_most(b),
{
}

/// Doubles that are not negative and not NaN are ordered as their encodings.
pub proof fn encodings_order_as_numbers(a: Double, b: Double)
    requires
        !a.negative(),
        !b.negative(),
        !a.nan(),
        !b.nan(),
    ensures
        a.below(b) <==> a.bits < b.bits,
        a.at_most(b) <==> a.bits <= b.bits,
{
}

} // verus!

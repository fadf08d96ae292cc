//! Deterministic, dependency-free random number generation.
//!
//! xoshiro256++ seeded via splitmix64. Streams are a function of the seed
//! alone, a hard requirement for reproducible stochastic simulation.

use vstd::prelude::*;

use crate::arith::{num, Arithmetic, Op};
use crate::double::{Double, HIDDEN, ONE};

verus! {

/// Bit pattern of minus two.
pub const MINUS_TWO: u64 = 0xC000_0000_0000_0000;

/// Bit pattern of twice pi.
pub const TWO_PI: u64 = 0x4019_21FB_5444_2D18;

/// Exchanges two elements: std's `slice::swap`, whose documentation says that
/// it swaps the elements at the two indices and panics out of bounds.
#[verifier::external_body]
fn exchange<T>(xs: &mut Vec<T>, a: usize, b: usize)
    requires
        a < old(xs)@.len(),
        b < old(xs)@.len(),
    ensures
        final(xs)@ == old(xs)@.update(a as int, old(xs)@[b as int]).update(
            b as int,
            old(xs)@[a as int],
        ),
{
    xs.swap(a, b);
}

/// State of splitmix64 after one step.
pub open spec fn splitmix_next(state: u64) -> u64 {
    state.wrapping_add(0x9E37_79B9_7F4A_7C15)
}

/// Output of splitmix64 in this state: two multiply-and-shift rounds.
pub open spec fn splitmix_out(state: u64) -> u64 {
    let a = (state ^ (state >> 30)).wrapping_mul(0xBF58_476D_1CE4_E5B9);
    let b = (a ^ (a >> 27)).wrapping_mul(0x94D0_49BB_1331_11EB);
    b ^ (b >> 31)
}

/// splitmix64 step, used for seeding and seed derivation.
pub fn splitmix64(state: &mut u64) -> (out: u64)
    ensures
        *final(state) == splitmix_next(*old(state)),
        out == splitmix_out(*final(state)),
{
    *state = state.wrapping_add(0x9E37_79B9_7F4A_7C15);
    let z: u64 = *state;
    let a: u64 = (z ^ (z >> 30)).wrapping_mul(0xBF58_476D_1CE4_E5B9);
    let b: u64 = (a ^ (a >> 27)).wrapping_mul(0x94D0_49BB_1331_11EB);
    b ^ (b >> 31)
}

/// Seed of realization `r` of a run with this base seed.
pub open spec fn stream_seed(seed: u64, r: nat) -> u64 {
    splitmix_out(
        splitmix_next(seed ^ (r as u64).wrapping_mul(0x9E37_79B9_7F4A_7C15)),
    )
}

/// Seed of realization `r`: realizations draw from streams of their own, so
/// the order in which they run does not matter.
pub fn realization_seed(seed: u64, r: usize) -> (s: u64)
    ensures
        s == stream_seed(seed, r as nat),
{
    let mut state: u64 = seed ^ (r as u64).wrapping_mul(0x9E37_79B9_7F4A_7C15);
    splitmix64(&mut state)
}

/// `x` rotated left by `k` bits.
pub open spec fn rotated(x: u64, k: u64) -> u64 {
    (x << k) | (x >> ((64 - k) as u64))
}

fn rotate(x: u64, k: u64) -> (r: u64)
    requires
        0 < k < 64,
    ensures
        r == rotated(x, k),
{
    (x << k) | (x >> (64 - k))
}

/// State of xoshiro256++.
#[derive(Clone, Copy, Debug, PartialEq, Eq, Structural)]
pub struct Words {
    /// First word.
    pub a: u64,
    /// Second word.
    pub b: u64,
    /// Third word.
    pub c: u64,
    /// Fourth word.
    pub d: u64,
}

impl Words {
    /// The state that a seed expands to: four splitmix64 outputs.
    pub open spec fn seeded(seed: u64) -> Words {
        let s1 = splitmix_next(seed);
        let s2 = splitmix_next(s1);
        let s3 = splitmix_next(s2);
        let s4 = splitmix_next(s3);
        Words {
            a: splitmix_out(s1),
            b: splitmix_out(s2),
            c: splitmix_out(s3),
            d: splitmix_out(s4),
        }
    }

    /// Output of the generator in this state.
    pub open spec fn output(self) -> u64 {
        rotated(self.a.wrapping_add(self.d), 23).wrapping_add(self.a)
    }

    /// State after one output.
    pub open spec fn next(self) -> Words {
        let c = self.c ^ self.a;
        let d = self.d ^ self.b;
        Words { a: self.a ^ d, b: self.b ^ c, c: c ^ (self.b << 17), d: rotated(d, 45) }
    }

    /// State after `n` outputs.
    pub open spec fn after(self, n: nat) -> Words
        decreases n,
    {
        if n == 0 {
            self
        } else {
            self.after((n - 1) as nat).next()
        }
    }
}

/// `xs` after the Fisher-Yates steps for positions `i` down to 1, with a
/// generator in state `w`.
pub open spec fn shuffled<T>(w: Words, xs: Seq<T>, i: int) -> Seq<T>
    decreases i,
{
    if i <= 0 {
        xs
    } else {
        let j = w.output() as int % (i + 1);
        shuffled(w.next(), xs.update(i, xs[j]).update(j, xs[i]), i - 1)
    }
}

/// `us` are the `n` uniform samples of a generator in state `w`: the upper 53
/// bits of each output, as a multiple of 2 to the power -53.
pub open spec fn are_uniforms(us: Seq<Double>, w: Words, n: nat) -> bool {
    us.len() == n && forall|i: int|
        0 <= i < n ==> (#[trigger] us[i]).exactly((w.after(i as nat).output() >> 11) as nat, 1022)
            && !us[i].negative() && us[i].bits < ONE
}

/// Output `k` of a generator in state `w` makes a uniform that is not zero.
pub open spec fn nonzero_at(w: Words, k: nat) -> bool {
    w.after(k).output() >> 11 != 0
}

/// A uniform that is not zero comes up.
pub open spec fn comes_up(w: Words) -> bool {
    exists|k: nat| nonzero_at(w, k)
}

/// Uniforms that are not zero keep coming up.
pub open spec fn lively(w: Words) -> bool {
    forall|n: nat| comes_up(#[trigger] w.after(n))
}

/// Output `k` is the first that makes a uniform that is not zero.
pub open spec fn first_nonzero(w: Words, k: nat) -> bool {
    nonzero_at(w, k) && forall|j: nat| j < k ==> !nonzero_at(w, j)
}

/// The normals of the pair of uniforms at outputs `k` and `k + 1`.
pub open spec fn is_pair<F: Fn(Op, Double, Double) -> Double>(
    ar: Arithmetic<F>,
    w: Words,
    k: nat,
    u1: Double,
    u2: Double,
    z: Double,
    spare: Double,
) -> bool {
    &&& u1.exactly((w.after(k).output() >> 11) as nat, 1022)
    &&& u2.exactly((w.after(k + 1).output() >> 11) as nat, 1022)
    &&& z == ar.times(
        ar.sqrt(ar.times(num(MINUS_TWO), ar.ln(u1))),
        ar.cos(ar.times(num(TWO_PI), u2)),
    )
    &&& spare == ar.times(
        ar.sqrt(ar.times(num(MINUS_TWO), ar.ln(u1))),
        ar.sin(ar.times(num(TWO_PI), u2)),
    )
}

/// A generator in state `w` draws the normal `z` and is then in state `w2`.
pub open spec fn draws_normal<F: Fn(Op, Double, Double) -> Double>(
    ar: Arithmetic<F>,
    w: Words,
    spare: Option<Double>,
    z: Double,
    w2: Words,
    spare2: Option<Double>,
) -> bool {
    match spare {
        Some(s) => z == s && w2 == w && spare2 is None,
        None => exists|k: nat| #[trigger]
            first_nonzero(w, k) && w2 == w.after(k + 2) && spare2 is Some && pairs_up(
                ar,
                w,
                k,
                z,
                spare2->0,
            ),
    }
}

/// `z` and `spare` are the normals of the uniforms at outputs `k` and `k + 1`.
pub open spec fn pairs_up<F: Fn(Op, Double, Double) -> Double>(
    ar: Arithmetic<F>,
    w: Words,
    k: nat,
    z: Double,
    spare: Double,
) -> bool {
    exists|u1: Double, u2: Double| #[trigger] is_pair(ar, w, k, u1, u2, z, spare)
}

/// The states that a generator goes through as it draws the normals `zs`.
pub open spec fn goes_through<F: Fn(Op, Double, Double) -> Double>(
    ar: Arithmetic<F>,
    states: Seq<(Words, Option<Double>)>,
    zs: Seq<Double>,
) -> bool {
    &&& states.len() == zs.len() + 1
    &&& forall|i: int|
        0 <= i < zs.len() ==> draws_normal(
            ar,
            states[i].0,
            states[i].1,
            #[trigger] zs[i],
            states[i + 1].0,
            states[i + 1].1,
        )
}

/// A generator in state `w` draws the normals `zs` and is then in state `w2`.
pub open spec fn draws_normals<F: Fn(Op, Double, Double) -> Double>(
    ar: Arithmetic<F>,
    w: Words,
    spare: Option<Double>,
    zs: Seq<Double>,
    w2: Words,
    spare2: Option<Double>,
) -> bool {
    exists|states: Seq<(Words, Option<Double>)>| #[trigger]
        goes_through(ar, states, zs) && states[0] == (w, spare) && states.last() == (w2, spare2)
}

/// A generator draws one normal, and goes on in one state.
pub proof fn normal_is_unique<F: Fn(Op, Double, Double) -> Double>(
    ar: Arithmetic<F>,
    w: Words,
    spare: Option<Double>,
    z1: Double,
    w1: Words,
    s1: Option<Double>,
    z2: Double,
    w2: Words,
    s2: Option<Double>,
)
    requires
        draws_normal(ar, w, spare, z1, w1, s1),
        draws_normal(ar, w, spare, z2, w2, s2),
    ensures
        z1 == z2,
        w1 == w2,
        s1 == s2,
{
    if spare is None {
        let i = choose|k: nat| #[trigger]
            first_nonzero(w, k) && w1 == w.after(k + 2) && s1 is Some && pairs_up(
                ar,
                w,
                k,
                z1,
                s1->0,
            );
        let j = choose|k: nat| #[trigger]
            first_nonzero(w, k) && w2 == w.after(k + 2) && s2 is Some && pairs_up(
                ar,
                w,
                k,
                z2,
                s2->0,
            );
        if i < j {
            assert(!nonzero_at(w, i));
        } else if j < i {
            assert(!nonzero_at(w, j));
        }
        let (u1, v1) = choose|u1: Double, u2: Double| #[trigger]
            is_pair(ar, w, i, u1, u2, z1, s1->0);
        let (u2, v2) = choose|u1: Double, u2: Double| #[trigger]
            is_pair(ar, w, i, u1, u2, z2, s2->0);
        Double::exact_is_unique(u1, u2, (w.after(i).output() >> 11) as nat, 1022);
        Double::exact_is_unique(v1, v2, (w.after(i + 1).output() >> 11) as nat, 1022);
    }
}

/// A generator draws one sequence of normals.
pub proof fn normals_are_unique<F: Fn(Op, Double, Double) -> Double>(
    ar: Arithmetic<F>,
    w: Words,
    spare: Option<Double>,
    zs1: Seq<Double>,
    w1: Words,
    s1: Option<Double>,
    zs2: Seq<Double>,
    w2: Words,
    s2: Option<Double>,
)
    requires
        zs1.len() == zs2.len(),
        draws_normals(ar, w, spare, zs1, w1, s1),
        draws_normals(ar, w, spare, zs2, w2, s2),
    ensures
        zs1 == zs2,
        w1 == w2,
        s1 == s2,
{
    let a = choose|states: Seq<(Words, Option<Double>)>| #[trigger]
        goes_through(ar, states, zs1) && states[0] == (w, spare) && states.last() == (w1, s1);
    let b = choose|states: Seq<(Words, Option<Double>)>| #[trigger]
        goes_through(ar, states, zs2) && states[0] == (w, spare) && states.last() == (w2, s2);
    assert forall|i: int| 0 <= i < zs1.len() implies zs1[i] == zs2[i] by {
        lemma_states_agree(ar, a, zs1, b, zs2, i);
        normal_is_unique(
            ar,
            a[i].0,
            a[i].1,
            zs1[i],
            a[i + 1].0,
            a[i + 1].1,
            zs2[i],
            b[i + 1].0,
            b[i + 1].1,
        );
    }
    assert(zs1 =~= zs2);
    lemma_states_agree(ar, a, zs1, b, zs2, zs1.len() as int);
}

proof fn lemma_states_agree<F: Fn(Op, Double, Double) -> Double>(
    ar: Arithmetic<F>,
    a: Seq<(Words, Option<Double>)>,
    zs1: Seq<Double>,
    b: Seq<(Words, Option<Double>)>,
    zs2: Seq<Double>,
    i: int,
)
    requires
        zs1.len() == zs2.len(),
        goes_through(ar, a, zs1),
        goes_through(ar, b, zs2),
        a[0] == b[0],
        0 <= i <= zs1.len(),
    ensures
        a[i] == b[i],
    decreases i,
{
    if i > 0 {
        lemma_states_agree(ar, a, zs1, b, zs2, i - 1);
        assert(draws_normal(ar, a[i - 1].0, a[i - 1].1, zs1[i - 1], a[i].0, a[i].1));
        assert(draws_normal(ar, b[i - 1].0, b[i - 1].1, zs2[i - 1], b[i].0, b[i].1));
        normal_is_unique(
            ar,
            a[i - 1].0,
            a[i - 1].1,
            zs1[i - 1],
            a[i].0,
            a[i].1,
            zs2[i - 1],
            b[i].0,
            b[i].1,
        );
    }
}

proof fn lemma_after_steps(w: Words, k: nat)
    ensures
        w.after(k + 1) == w.after(k).next(),
        w.after(k + 2) == w.after(k).next().next(),
{
    assert(w.after(k + 2) == w.after(k + 1).next());
}

proof fn lemma_after_adds(w: Words, a: nat, b: nat)
    ensures
        w.after(a).after(b) == w.after(a + b),
    decreases b,
{
    if b > 0 {
        lemma_after_adds(w, a, (b - 1) as nat);
    }
}

proof fn lemma_lively(w: Words, n: nat)
    requires
        lively(w),
    ensures
        comes_up(w.after(n)),
{
}

/// Deterministic xoshiro256++ generator with a cached second normal.
#[derive(Clone, Copy, Debug)]
pub struct Rng {
    s: Words,
    spare_normal: Option<Double>,
}

impl Rng {
    /// The generator's state.
    pub closed spec fn words(&self) -> Words {
        self.s
    }

    /// The normal that was drawn ahead, if any.
    pub closed spec fn spare(&self) -> Option<Double> {
        self.spare_normal
    }

    /// Creates a generator from a 64-bit seed.
    pub fn new(seed: u64) -> (r: Rng)
        ensures
            r.words() == Words::seeded(seed),
            r.spare() is None,
    {
        let mut sm: u64 = seed;
        let a: u64 = splitmix64(&mut sm);
        let b: u64 = splitmix64(&mut sm);
        let c: u64 = splitmix64(&mut sm);
        let d: u64 = splitmix64(&mut sm);
        Rng { s: Words { a, b, c, d }, spare_normal: None }
    }

    /// Next raw 64-bit value.
    pub fn next_u64(&mut self) -> (out: u64)
        ensures
            out == old(self).words().output(),
            final(self).words() == old(self).words().next(),
            final(self).spare() == old(self).spare(),
    {
        let w: Words = self.s;
        let out: u64 = rotate(w.a.wrapping_add(w.d), 23).wrapping_add(w.a);
        let c: u64 = w.c ^ w.a;
        let d: u64 = w.d ^ w.b;
        self.s = Words { a: w.a ^ d, b: w.b ^ c, c: c ^ (w.b << 17), d: rotate(d, 45) };
        out
    }

    /// Uniform sample in `[0, 1)` with 53 bits of precision: the upper 53 bits
    /// of one output, as a multiple of 2 to the power -53.
    pub fn uniform(&mut self) -> (u: Double)
        ensures
            u.exactly((old(self).words().output() >> 11) as nat, 1022),
            !u.negative(),
            u.bits < ONE,
            final(self).words() == old(self).words().next(),
            final(self).spare() == old(self).spare(),
    {
        let x: u64 = self.next_u64();
        assert(x >> 11 < 0x0020_0000_0000_0000) by (bit_vector);
        let u: Double = Double::from_scaled(x >> 11, 1022);
        assert(u.bits < ONE) by {
            if x >> 11 != 0 {
                assert(u.bits as int / HIDDEN as int <= 1022);
            }
        }
        u
    }

    /// `n` uniform samples, in the order of the outputs.
    pub fn uniforms(&mut self, n: usize) -> (us: Vec<Double>)
        ensures
            are_uniforms(us@, old(self).words(), n as nat),
            final(self).words() == old(self).words().after(n as nat),
            final(self).spare() == old(self).spare(),
    {
        let ghost w0 = self.words();
        let mut us: Vec<Double> = Vec::new();
        for i in 0..n
            invariant
                w0 == old(self).words(),
                self.words() == w0.after(i as nat),
                self.spare() == old(self).spare(),
                are_uniforms(us@, w0, i as nat),
        {
            us.push(self.uniform());
        }
        us
    }

    /// Takes the normal that was drawn ahead, if there is one.
    pub fn take_spare_normal(&mut self) -> (z: Option<Double>)
        ensures
            z == old(self).spare(),
            final(self).spare() is None,
            final(self).words() == old(self).words(),
    {
        let z: Option<Double> = self.spare_normal;
        self.spare_normal = None;
        z
    }

    /// One attempt at the pair of uniforms for a Box-Muller transform: `None`
    /// if the first is zero (its logarithm is not finite; the caller tries
    /// again), else both.
    pub fn normal_uniforms(&mut self) -> (pair: Option<(Double, Double)>)
        ensures
            final(self).spare() == old(self).spare(),
            pair is None <==> old(self).words().output() >> 11 == 0,
            pair is None ==> final(self).words() == old(self).words().next(),
            pair matches Some((u1, u2)) ==> {
                &&& u1.positive()
                &&& u1.exactly((old(self).words().output() >> 11) as nat, 1022)
                &&& u2.exactly((old(self).words().next().output() >> 11) as nat, 1022)
                &&& final(self).words() == old(self).words().next().next()
            },
    {
        let u1: Double = self.uniform();
        assert(u1.bits == 0 ==> u1.exponent() == 0);
        if u1.is_positive() {
            let u2: Double = self.uniform();
            Some((u1, u2))
        } else {
            None
        }
    }

    /// Standard normal sample by the Box-Muller transform of two uniforms, the
    /// first not zero; the second normal of the pair is kept for the next
    /// request.
    pub fn normal<F: Fn(Op, Double, Double) -> Double>(&mut self, ar: &Arithmetic<F>) -> (z: Double)
        requires
            ar.total(),
            old(self).spare() is None ==> comes_up(old(self).words()),
        ensures
            draws_normal(
                *ar,
                old(self).words(),
                old(self).spare(),
                z,
                final(self).words(),
                final(self).spare(),
            ),
    {
        if let Some(z) = self.take_spare_normal() {
            return z;
        }
        let ghost w0 = self.words();
        let ghost end: nat = choose|k: nat| nonzero_at(w0, k);
        let ghost mut k: nat = 0;
        loop
            invariant
                ar.total(),
                self.spare() is None,
                old(self).spare() is None,
                w0 == old(self).words(),
                self.words() == w0.after(k),
                nonzero_at(w0, end),
                k <= end,
                forall|j: nat| j < k ==> !nonzero_at(w0, j),
            decreases end - k,
        {
            match self.normal_uniforms() {
                Some((u1, u2)) => {
                    let r: Double = ar.sqrt(ar.times(num(MINUS_TWO), ar.ln(u1)));
                    let angle: Double = ar.times(num(TWO_PI), u2);
                    let s: Double = ar.sin(angle);
                    let c: Double = ar.cos(angle);
                    self.keep_normal(ar.times(r, s));
                    let z: Double = ar.times(r, c);
                    proof {
                        lemma_after_steps(w0, k);
                        assert(first_nonzero(w0, k));
                        assert(is_pair(*ar, w0, k, u1, u2, z, ar.times(r, s)));
                    }
                    return z;
                },
                None => {
                    proof {
                        assert(!nonzero_at(w0, k));
                        k = k + 1;
                    }
                },
            }
        }
    }

    /// `n` standard normal samples.
    pub fn normals<F: Fn(Op, Double, Double) -> Double>(&mut self, n: usize, ar: &Arithmetic<F>) -> (
    zs: Vec<Double>)
        requires
            ar.total(),
            lively(old(self).words()),
        ensures
            draws_normals(
                *ar,
                old(self).words(),
                old(self).spare(),
                zs@,
                final(self).words(),
                final(self).spare(),
            ),
            zs.len() == n,
    {
        let ghost w0 = self.words();
        let ghost s0 = self.spare();
        let ghost mut steps: nat = 0;
        let ghost mut states: Seq<(Words, Option<Double>)> = seq![(w0, s0)];
        let mut zs: Vec<Double> = Vec::new();
        for i in 0..n
            invariant
                ar.total(),
                lively(w0),
                self.words() == w0.after(steps),
                zs.len() == i,
                goes_through(*ar, states, zs@),
                states[0] == (w0, s0),
                states.last() == (self.words(), self.spare()),
        {
            let ghost w = self.words();
            let ghost s = self.spare();
            proof {
                lemma_lively(w0, steps);
            }
            let z: Double = self.normal(ar);
            zs.push(z);
            proof {
                states = states.push((self.words(), self.spare()));
                if s is None {
                    let k = choose|k: nat| #[trigger]
                        first_nonzero(w, k) && self.words() == w.after(k + 2);
                    lemma_after_adds(w0, steps, k + 2);
                    steps = steps + k + 2;
                }
            }
        }
        zs
    }

    /// Keeps the second normal of a pair for the next request.
    pub fn keep_normal(&mut self, z: Double)
        ensures
            final(self).spare() == Some(z),
            final(self).words() == old(self).words(),
    {
        self.spare_normal = Some(z);
    }

    /// Fisher-Yates shuffle.
    pub fn shuffle<T>(&mut self, xs: &mut Vec<T>)
        ensures
            final(xs)@ == shuffled(old(self).words(), old(xs)@, old(xs)@.len() - 1),
            final(self).words() == old(self).words().after(
                (if old(xs)@.len() == 0 { 0 } else { old(xs)@.len() - 1 }) as nat,
            ),
            final(self).spare() == old(self).spare(),
            final(xs)@.to_multiset() == old(xs)@.to_multiset(),
    {
        if xs.len() == 0 {
            return ;
        }
        let ghost w0 = self.words();
        let ghost xs0 = xs@;
        let n: usize = xs.len();
        let mut i: usize = n - 1;
        while i > 0
            invariant
                i < n,
                xs.len() == n,
                xs0.len() == n,
                self.spare() == old(self).spare(),
                self.words() == w0.after((n - 1 - i) as nat),
                shuffled(self.words(), xs@, i as int) == shuffled(w0, xs0, n - 1),
                xs@.to_multiset() == xs0.to_multiset(),
            decreases i,
        {
            let ghost before = xs@;
            let j: usize = (self.next_u64() % (i as u64 + 1)) as usize;
            exchange(xs, i, j);
            proof {
                lemma_swap_keeps_multiset(before, i as int, j as int);
            }
            i = i - 1;
        }
    }
}

/// A shuffle only rearranges.
pub proof fn shuffle_is_a_permutation<T>(w: Words, xs: Seq<T>)
    ensures
        shuffled(w, xs, xs.len() - 1).to_multiset() == xs.to_multiset(),
{
    lemma_shuffled_multiset(w, xs, xs.len() - 1);
}

proof fn lemma_shuffled_multiset<T>(w: Words, xs: Seq<T>, i: int)
    requires
        i < xs.len(),
    ensures
        shuffled(w, xs, i).to_multiset() == xs.to_multiset(),
        shuffled(w, xs, i).len() == xs.len(),
    decreases i,
{
    if i > 0 {
        let j = w.output() as int % (i + 1);
        lemma_swap_keeps_multiset(xs, i, j);
        lemma_shuffled_multiset(w.next(), xs.update(i, xs[j]).update(j, xs[i]), i - 1);
    }
}

proof fn lemma_swap_keeps_multiset<T>(xs: Seq<T>, i: int, j: int)
    requires
        0 <= i < xs.len(),
        0 <= j < xs.len(),
    ensures
        xs.update(i, xs[j]).update(j, xs[i]).to_multiset() == xs.to_multiset(),
{
    broadcast use vstd::seq_lib::group_to_multiset_ensures;

    let a = xs.update(i, xs[j]);
    let b = a.update(j, xs[i]);
    assert(a.to_multiset() =~= xs.to_multiset().remove(xs[i]).insert(xs[j])) by {
        vstd::seq_lib::to_multiset_update(xs, i, xs[j]);
    }
    assert(b.to_multiset() =~= a.to_multiset().remove(a[j]).insert(xs[i])) by {
        vstd::seq_lib::to_multiset_update(a, j, xs[i]);
    }
    assert(xs.to_multiset().contains(xs[i])) by {
        assert(xs.contains(xs[i]));
    }
    assert(b.to_multiset() =~= xs.to_multiset());
}

} // verus!

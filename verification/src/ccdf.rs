//! Local conditional distributions at a set of cutoffs: checks of cutoffs,
//! proportions and tails, indicator estimates, order-relation corrections and
//! the draw from a corrected distribution.

use vstd::prelude::*;

use crate::arith::{num, Arithmetic, HALF, MINUS_ZERO, Op};
use crate::double::{Double, HIDDEN, INFINITE, ONE, SIGN};
use crate::error::{
    invalid, invalid_of, invalid_parameter, mismatch, mismatched, GeostatError, Message,
};
use crate::tails::{
    draw_lower, draw_upper, keeps_order, lower_draw_stays, lower_drawn, lower_moments,
    lower_moments_of, upper_draw_stays, upper_drawn, upper_moments, upper_moments_of, TailModel,
};
use crate::text::{concat2, concat3, counts_text, decimal, digits};
use crate::transform::{largest, smallest};

verus! {

/// Bit pattern of the narrowest class in which a position is told.
pub const NARROWEST: u64 = 0x3D71_9799_812D_EA11;

/// Bit pattern of three.
pub const THREE: u64 = 0x4008_0000_0000_0000;

/// Each element is below every later one.
pub open spec fn rises(xs: Seq<Double>) -> bool {
    forall|i: int, j: int| 0 <= i < j < xs.len() ==> (#[trigger] xs[i]).below(#[trigger] xs[j])
}

/// Whether each element is below the next.
pub fn is_rising(xs: &Vec<Double>) -> (b: bool)
    ensures
        b == rises(xs@),
{
    if xs.len() == 0 {
        return true;
    }
    for i in 1..xs.len()
        invariant
            xs.len() > 0,
            rises(xs@.take(i as int)),
    {
        if !xs[i - 1].lt(xs[i]) {
            assert(!xs@[i - 1].below(xs@[i as int]));
            return false;
        }
        proof {
            let up = xs@.take(i as int);
            let more = xs@.take(i + 1);
            assert forall|a: int, b: int| 0 <= a < b < more.len() implies (#[trigger] more[a]).below(
                #[trigger] more[b],
            ) by {
                if b == i {
                    if a < i - 1 {
                        assert(up[a].below(up[i - 1]));
                    }
                } else {
                    assert(up[a].below(up[b]));
                }
            }
        }
    }
    assert(xs@.take(xs.len() as int) =~= xs@);
    true
}

/// Cutoffs and the number of their models are in order.
pub open spec fn cutoffs_ok(cutoffs: Seq<Double>, n_models: nat) -> bool {
    &&& cutoffs.len() > 0
    &&& rises(cutoffs)
    &&& (n_models == cutoffs.len() || n_models == 1)
}

/// Text on a number of models that fits no number of cutoffs.
pub open spec fn models_text(n_models: nat, nc: nat) -> Seq<char> {
    digits(n_models) + " models for "@ + digits(nc) + " cutoffs (expected "@ + digits(nc)
        + ", or 1 for median IK)"@
}

/// Refuses a number of models.
pub fn wrong_models(n_models: usize, nc: usize) -> (e: GeostatError)
    ensures
        mismatch(e, models_text(n_models as nat, nc as nat)),
{
    let head: String = counts_text(n_models, " models for ", nc, " cutoffs (expected ");
    let tail: String = concat2(decimal(nc).as_str(), ", or 1 for median IK)");
    let text: String = concat2(head.as_str(), tail.as_str());
    assert(text@ =~= models_text(n_models as nat, nc as nat));
    mismatched(text)
}

/// How many values are at most `c`.
pub open spec fn count_at_most(values: Seq<Double>, c: Double) -> nat
    decreases values.len(),
{
    if values.len() == 0 {
        0
    } else {
        count_at_most(values.drop_last(), c) + if values.last().at_most(c) {
            1nat
        } else {
            0nat
        }
    }
}

fn count_of(values: &Vec<Double>, c: Double) -> (n: usize)
    ensures
        n == count_at_most(values@, c),
        n <= values.len(),
{
    let mut n: usize = 0;
    for i in 0..values.len()
        invariant
            n == count_at_most(values@.take(i as int), c),
            n <= i,
    {
        assert(values@.take(i + 1).drop_last() =~= values@.take(i as int));
        if values[i].le(c) {
            n = n + 1;
        }
    }
    assert(values@.take(values.len() as int) =~= values@);
    n
}

/// Sum of the weights of the values that are at most `c`.
pub open spec fn weight_at_most<F: Fn(Op, Double, Double) -> Double>(
    ar: Arithmetic<F>,
    values: Seq<Double>,
    weights: Seq<Double>,
    c: Double,
) -> Double
    decreases values.len(),
{
    if values.len() == 0 {
        num(MINUS_ZERO)
    } else {
        let before = weight_at_most(ar, values.drop_last(), weights.drop_last(), c);
        if values.last().at_most(c) {
            ar.plus(before, weights.last())
        } else {
            before
        }
    }
}

/// Proportion of the values that are at most `c`: weighted where there are
/// weights, a plain count otherwise.
pub open spec fn share_of<F: Fn(Op, Double, Double) -> Double>(
    ar: Arithmetic<F>,
    values: Seq<Double>,
    weights: Option<Seq<Double>>,
    c: Double,
) -> Double {
    match weights {
        None => ar.over(
            Double::count(count_at_most(values, c)),
            Double::count(values.len()),
        ),
        Some(w) => ar.over(weight_at_most(ar, values, w, c), ar.total_of(w)),
    }
}

/// Proportions of the values at the cutoffs.
pub open spec fn shares_of<F: Fn(Op, Double, Double) -> Double>(
    ar: Arithmetic<F>,
    values: Seq<Double>,
    weights: Option<Seq<Double>>,
    cutoffs: Seq<Double>,
) -> Seq<Double> {
    Seq::new(cutoffs.len(), |k: int| share_of(ar, values, weights, cutoffs[k]))
}

/// The weights, as a sequence.
pub open spec fn weight_list(weights: Option<Vec<Double>>) -> Option<Seq<Double>> {
    match weights {
        Some(w) => Some(w@),
        None => None,
    }
}

/// The declustering weights, where there are any, can be used.
pub open spec fn weights_ok<F: Fn(Op, Double, Double) -> Double>(
    ar: Arithmetic<F>,
    weights: Option<Seq<Double>>,
    n: nat,
) -> bool {
    weights matches Some(w) ==> w.len() == n && ar.total_of(w).positive()
}

/// Why not.
pub open spec fn weights_refused(weights: Option<Seq<Double>>, n: nat, e: GeostatError) -> bool {
    let w = weights->0;
    if w.len() != n {
        mismatch(
            e,
            digits(w.len()) + " declustering weights vs "@ + digits(n) + " data points"@,
        )
    } else {
        invalid(e, "declustering weights must sum to a positive value"@)
    }
}

/// Global proportions at the cutoffs: weighted by declustering weights where
/// given, plain counts otherwise.
pub fn proportions<F: Fn(Op, Double, Double) -> Double>(
    values: &Vec<Double>,
    weights: &Option<Vec<Double>>,
    cutoffs: &Vec<Double>,
    ar: &Arithmetic<F>,
) -> (r: Result<Vec<Double>, GeostatError>)
    requires
        ar.total(),
        values.len() < 2 * HIDDEN,
    ensures
        match r {
            Ok(p) => weights_ok(*ar, weight_list(*weights), values@.len()) && p@ == shares_of(
                *ar,
                values@,
                weight_list(*weights),
                cutoffs@,
            ),
            Err(e) => !weights_ok(*ar, weight_list(*weights), values@.len()) && weights_refused(
                weight_list(*weights),
                values@.len(),
                e,
            ),
        },
{
    let mut props: Vec<Double> = Vec::new();
    let ghost list = weight_list(*weights);
    match weights {
        Some(w) => {
            if w.len() != values.len() {
                return Err(
                    mismatched(
                        counts_text(
                            w.len(),
                            " declustering weights vs ",
                            values.len(),
                            " data points",
                        ),
                    ),
                );
            }
            let wsum: Double = ar.add_up(w);
            if !wsum.is_positive() {
                return Err(invalid_parameter("declustering weights must sum to a positive value"));
            }
            for k in 0..cutoffs.len()
                invariant
                    ar.total(),
                    w.len() == values.len(),
                    wsum == ar.total_of(w@),
                    list == Some(w@),
                    props@ =~= shares_of(*ar, values@, list, cutoffs@).take(k as int),
            {
                let mut s: Double = num(MINUS_ZERO);
                for i in 0..values.len()
                    invariant
                        ar.total(),
                        k < cutoffs.len(),
                        w.len() == values.len(),
                        s == weight_at_most(
                            *ar,
                            values@.take(i as int),
                            w@.take(i as int),
                            cutoffs@[k as int],
                        ),
                {
                    assert(values@.take(i + 1).drop_last() =~= values@.take(i as int));
                    assert(w@.take(i + 1).drop_last() =~= w@.take(i as int));
                    if values[i].le(cutoffs[k]) {
                        s = ar.plus(s, w[i]);
                    }
                }
                assert(values@.take(values.len() as int) =~= values@);
                assert(w@.take(values.len() as int) =~= w@);
                props.push(ar.over(s, wsum));
            }
        },
        None => {
            for k in 0..cutoffs.len()
                invariant
                    ar.total(),
                    values.len() < 2 * HIDDEN,
                    list is None,
                    props@ =~= shares_of(*ar, values@, list, cutoffs@).take(k as int),
            {
                let n: usize = count_of(values, cutoffs[k]);
                props.push(ar.over(Double::from_count(n), Double::from_count(values.len())));
            }
        },
    }
    assert(props@ =~= shares_of(*ar, values@, list, cutoffs@));
    Ok(props)
}

/// A proportion leaves data on both sides.
pub open spec fn proper_share(p: Double) -> bool {
    p.positive() && p.below(Double { bits: ONE })
}

/// Every proportion leaves data on both sides.
pub open spec fn shares_ok(props: Seq<Double>) -> bool {
    forall|k: int| 0 <= k < props.len() ==> proper_share(#[trigger] props[k])
}

/// Why the proportions are refused: the first that leaves one side empty.
pub open spec fn shares_refused(props: Seq<Double>, cutoffs: Seq<Double>, e: GeostatError) -> bool {
    exists|k: int|
        0 <= k < props.len() && !proper_share(#[trigger] props[k]) && shares_ok(props.take(k))
            && invalid_of(
            e,
            "cutoff "@ + digits(k as nat)
                + " (= {}) leaves no data on one side (proportion {})"@,
            seq![cutoffs[k], props[k]],
        )
}

/// Refuses proportions that leave one side empty.
pub fn check_shares(props: &Vec<Double>, cutoffs: &Vec<Double>) -> (r: Result<(), GeostatError>)
    requires
        props.len() == cutoffs.len(),
    ensures
        r is Ok <==> shares_ok(props@),
        r matches Err(e) ==> shares_refused(props@, cutoffs@, e),
{
    for k in 0..props.len()
        invariant
            props.len() == cutoffs.len(),
            forall|j: int| 0 <= j < k ==> proper_share(#[trigger] props@[j]),
    {
        let p: Double = props[k];
        if !(p.is_positive() && p.lt(Double::from_bits(ONE))) {
            let text: String = concat3(
                "cutoff ",
                decimal(k).as_str(),
                " (= {}) leaves no data on one side (proportion {})",
            );
            let mut doubles: Vec<Double> = Vec::new();
            doubles.push(cutoffs[k]);
            doubles.push(p);
            assert(doubles@ =~= seq![cutoffs@[k as int], props@[k as int]]);
            let e: GeostatError = GeostatError::InvalidParameter(Message::with(text, doubles));
            proof {
                assert(!proper_share(props@[k as int]));
                assert(shares_ok(props@.take(k as int)));
                assert(shares_refused(props@, cutoffs@, e));
            }
            return Err(e);
        }
    }
    Ok(())
}

/// Smallest and largest value of a list of numbers; infinity and its opposite
/// for an empty list.
pub fn range_of(values: &Vec<Double>) -> (r: (Double, Double))
    requires
        forall|i: int| 0 <= i < values.len() ==> !(#[trigger] values@[i]).nan(),
    ensures
        is_lower_bound(None, values@, r.0),
        is_upper_bound(None, values@, r.1),
{
    if values.len() == 0 {
        return (Double::infinity(), Double::neg_infinity());
    }
    let mut lo: Double = values[0];
    let mut hi: Double = values[0];
    assert(values@[0] == lo);
    for i in 1..values.len()
        invariant
            forall|j: int| 0 <= j < values.len() ==> !(#[trigger] values@[j]).nan(),
            values@.contains(lo),
            values@.contains(hi),
            !lo.nan(),
            !hi.nan(),
            forall|j: int| 0 <= j < i ==> lo.at_most(#[trigger] values@[j]),
            forall|j: int| 0 <= j < i ==> (#[trigger] values@[j]).at_most(hi),
            lo == first_least(values@, i as int),
            hi == first_greatest(values@, i as int),
    {
        let v: Double = values[i];
        assert(!values@[i as int].nan());
        assert(values@.contains(v));
        if v.lt(lo) {
            lo = v;
        }
        if hi.lt(v) {
            hi = v;
        }
    }
    (lo, hi)
}

/// The first of the smallest among the first `n` values.
pub open spec fn first_least(values: Seq<Double>, n: int) -> Double
    decreases n,
{
    if n <= 1 {
        values[0]
    } else if values[n - 1].below(first_least(values, n - 1)) {
        values[n - 1]
    } else {
        first_least(values, n - 1)
    }
}

/// The first of the largest among the first `n` values.
pub open spec fn first_greatest(values: Seq<Double>, n: int) -> Double
    decreases n,
{
    if n <= 1 {
        values[0]
    } else if first_greatest(values, n - 1).below(values[n - 1]) {
        values[n - 1]
    } else {
        first_greatest(values, n - 1)
    }
}

/// The lower tail bound: the one given, or the smallest value.
pub open spec fn is_lower_bound(given: Option<Double>, values: Seq<Double>, z: Double) -> bool {
    match given {
        Some(g) => z == g,
        None => if values.len() == 0 {
            z == (Double { bits: INFINITE })
        } else {
            smallest(values, z) && z == first_least(values, values.len() as int)
        },
    }
}

/// The upper tail bound: the one given, or the largest value.
pub open spec fn is_upper_bound(given: Option<Double>, values: Seq<Double>, z: Double) -> bool {
    match given {
        Some(g) => z == g,
        None => if values.len() == 0 {
            z == (Double { bits: (SIGN + INFINITE) as u64 })
        } else {
            largest(values, z) && z == first_greatest(values, values.len() as int)
        },
    }
}

/// Tail bounds bracket the cutoffs.
pub open spec fn brackets(tail_min: Double, tail_max: Double, cutoffs: Seq<Double>) -> bool {
    tail_min.at_most(cutoffs[0]) && cutoffs.last().at_most(tail_max)
}

/// Tail models make a distribution: both interpolate, and a hyperbolic upper
/// tail starts at a positive cutoff.
pub open spec fn ccdf_tails_ok(lower: TailModel, upper: TailModel, last_cutoff: Double) -> bool {
    &&& lower.lower_ok()
    &&& upper.proper()
    &&& lower != TailModel::Clamped
    &&& upper != TailModel::Clamped
    &&& upper is Hyperbolic ==> last_cutoff.positive()
}

/// Why tail models are refused: the first check that fails.
pub open spec fn ccdf_tails_refused(
    lower: TailModel,
    upper: TailModel,
    last_cutoff: Double,
    e: GeostatError,
) -> bool {
    if !lower.lower_ok() {
        match lower {
            TailModel::Power(w) => invalid_of(
                e,
                "power tail exponent must be positive, got {}"@,
                seq![w],
            ),
            _ => invalid(e, "hyperbolic tails apply to the upper tail only"@),
        }
    } else if !upper.proper() {
        match upper {
            TailModel::Power(w) => invalid_of(
                e,
                "tail exponent must be positive, got {}"@,
                seq![w],
            ),
            TailModel::Hyperbolic(w) => invalid_of(
                e,
                "tail exponent must be positive, got {}"@,
                seq![w],
            ),
            _ => false,
        }
    } else if lower == TailModel::Clamped || upper == TailModel::Clamped {
        invalid(e, "ccdf tails need an interpolation model (linear, power or hyperbolic)"@)
    } else {
        invalid(e, "hyperbolic upper tail requires a positive last cutoff"@)
    }
}

/// Validates tail models of a distribution: a clamped tail is none, and a
/// hyperbolic upper tail needs a positive last cutoff.
pub fn validate_ccdf_tails(lower: TailModel, upper: TailModel, last_cutoff: Double) -> (r: Result<
    (),
    GeostatError,
>)
    ensures
        r is Ok <==> ccdf_tails_ok(lower, upper, last_cutoff),
        r matches Err(e) ==> ccdf_tails_refused(lower, upper, last_cutoff, e),
{
    match lower.validate_lower() {
        Err(e) => {
            return Err(e);
        },
        Ok(_) => {},
    }
    match upper.validate_upper() {
        Err(e) => {
            return Err(e);
        },
        Ok(_) => {},
    }
    if lower == TailModel::Clamped || upper == TailModel::Clamped {
        return Err(
            invalid_parameter(
                "ccdf tails need an interpolation model (linear, power or hyperbolic)",
            ),
        );
    }
    if let TailModel::Hyperbolic(_) = upper {
        if !last_cutoff.is_positive() {
            return Err(invalid_parameter("hyperbolic upper tail requires a positive last cutoff"));
        }
    }
    Ok(())
}

/// `x`, kept between zero and one; NaN stays.
pub open spec fn unit_clamped(x: Double) -> Double {
    if x.below(Double { bits: 0 }) {
        Double { bits: 0 }
    } else if (Double { bits: ONE }).below(x) {
        Double { bits: ONE }
    } else {
        x
    }
}

/// Largest of the first `k + 1` values, each kept between zero and one.
pub open spec fn upward(raw: Seq<Double>, k: int) -> Double
    decreases k,
{
    if k <= 0 {
        unit_clamped(raw[0])
    } else {
        unit_clamped(raw[k]).greater(upward(raw, k - 1))
    }
}

/// Smallest of the values from `k` on, each kept between zero and one.
pub open spec fn downward(raw: Seq<Double>, k: int) -> Double
    decreases raw.len() - k,
{
    if k >= raw.len() - 1 {
        unit_clamped(raw[raw.len() - 1])
    } else {
        unit_clamped(raw[k]).lesser(downward(raw, k + 1))
    }
}

/// `raw` with its order relations corrected: the average of an upward and a
/// downward pass.
pub open spec fn corrected<F: Fn(Op, Double, Double) -> Double>(
    ar: Arithmetic<F>,
    raw: Seq<Double>,
) -> Seq<Double> {
    Seq::new(
        raw.len(),
        |k: int| ar.times(num(HALF), ar.plus(upward(raw, k), downward(raw, k))),
    )
}

/// Order-relation corrections: clamp to [0, 1], then average an upward
/// (running max) and a downward (running min) pass.
pub fn order_corrections<F: Fn(Op, Double, Double) -> Double>(ccdf: &mut Vec<Double>, ar: &Arithmetic<F>)
    requires
        ar.total(),
    ensures
        final(ccdf)@ == corrected(*ar, old(ccdf)@),
{
    let ghost raw = ccdf@;
    let nc: usize = ccdf.len();
    if nc == 0 {
        assert(ccdf@ =~= corrected(*ar, raw));
        return ;
    }
    let one: Double = Double::from_bits(ONE);
    let mut flat: Vec<Double> = Vec::new();
    for k in 0..nc
        invariant
            nc == ccdf.len(),
            ccdf@ == raw,
            one == (Double { bits: ONE }),
            flat.len() == k,
            forall|j: int| 0 <= j < k ==> #[trigger] flat@[j] == unit_clamped(raw[j]),
    {
        let f: Double = ccdf[k];
        if f.lt(Double::zero()) {
            flat.push(Double::zero());
        } else if one.lt(f) {
            flat.push(one);
        } else {
            flat.push(f);
        }
    }
    let mut up: Vec<Double> = Vec::new();
    for k in 0..nc
        invariant
            nc == raw.len(),
            flat.len() == nc,
            forall|j: int| 0 <= j < nc ==> #[trigger] flat@[j] == unit_clamped(raw[j]),
            up.len() == k,
            forall|j: int| 0 <= j < k ==> #[trigger] up@[j] == upward(raw, j),
    {
        if k == 0 {
            up.push(flat[0]);
        } else {
            up.push(flat[k].max(up[k - 1]));
        }
    }
    let mut down: Vec<Double> = Vec::new();
    for j in 0..nc
        invariant
            nc == flat.len(),
            down.len() == j,
            forall|i: int| 0 <= i < j ==> #[trigger] down@[i] == flat@[i],
    {
        down.push(flat[j]);
    }
    assert(down@[nc - 1] == downward(raw, nc - 1));
    let mut k: usize = nc - 1;
    while k > 0
        invariant
            k < nc,
            nc == raw.len(),
            flat.len() == nc,
            down.len() == nc,
            forall|j: int| 0 <= j < nc ==> #[trigger] flat@[j] == unit_clamped(raw[j]),
            forall|j: int| 0 <= j < k ==> #[trigger] down@[j] == flat@[j],
            forall|j: int| k <= j < nc ==> #[trigger] down@[j] == downward(raw, j),
        decreases k,
    {
        k = k - 1;
        let d: Double = down[k].min(down[k + 1]);
        down.set(k, d);
    }
    for k in 0..nc
        invariant
            nc == ccdf.len(),
            nc == raw.len(),
            up.len() == nc,
            down.len() == nc,
            ar.total(),
            forall|j: int| 0 <= j < nc ==> #[trigger] up@[j] == upward(raw, j),
            forall|j: int| 0 <= j < nc ==> #[trigger] down@[j] == downward(raw, j),
            forall|j: int|
                0 <= j < k ==> #[trigger] ccdf@[j] == corrected(*ar, raw)[j],
    {
        let f: Double = ar.times(num(HALF), ar.plus(up[k], down[k]));
        ccdf.set(k, f);
    }
    assert(ccdf@ =~= corrected(*ar, raw));
}

/// Averages keep order: greater arguments give no lesser average, and those of
/// numbers between zero and one lie there too.
pub open spec fn averages_keep_order<F: Fn(Op, Double, Double) -> Double>(ar: Arithmetic<F>) -> bool {
    &&& forall|a: Double, b: Double, c: Double, d: Double|
        #![trigger ar.times(num(HALF), ar.plus(a, b)), ar.times(num(HALF), ar.plus(c, d))]
        in_unit(a) && in_unit(b) && in_unit(c) && in_unit(d) && a.at_most(c) && b.at_most(d)
            ==> ar.times(num(HALF), ar.plus(a, b)).at_most(ar.times(num(HALF), ar.plus(c, d)))
    &&& forall|a: Double, b: Double|
        #![trigger ar.times(num(HALF), ar.plus(a, b))]
        in_unit(a) && in_unit(b) ==> in_unit(ar.times(num(HALF), ar.plus(a, b)))
}

/// Between zero and one.
pub open spec fn in_unit(x: Double) -> bool {
    (Double { bits: 0 }).at_most(x) && x.at_most(Double { bits: ONE })
}

proof fn lemma_passes_in_unit(raw: Seq<Double>, k: int)
    requires
        forall|i: int| 0 <= i < raw.len() ==> !(#[trigger] raw[i]).nan(),
        0 <= k < raw.len(),
    ensures
        in_unit(upward(raw, k)),
        k > 0 ==> upward(raw, k - 1).at_most(upward(raw, k)),
    decreases k,
{
    assert(!raw[k].nan());
    assert(in_unit(unit_clamped(raw[k])));
    if k > 0 {
        lemma_passes_in_unit(raw, k - 1);
    }
}

proof fn lemma_down_in_unit(raw: Seq<Double>, k: int)
    requires
        forall|i: int| 0 <= i < raw.len() ==> !(#[trigger] raw[i]).nan(),
        0 <= k < raw.len(),
    ensures
        in_unit(downward(raw, k)),
        k < raw.len() - 1 ==> downward(raw, k).at_most(downward(raw, k + 1)),
    decreases raw.len() - k,
{
    assert(!raw[k].nan());
    assert(in_unit(unit_clamped(raw[k])));
    if k < raw.len() - 1 {
        lemma_down_in_unit(raw, k + 1);
    }
}

/// A corrected distribution is monotone and lies between zero and one, for an
/// arithmetic whose averages keep order.
pub proof fn corrections_are_monotone_and_bounded<F: Fn(Op, Double, Double) -> Double>(
    ar: Arithmetic<F>,
    raw: Seq<Double>,
)
    requires
        forall|i: int| 0 <= i < raw.len() ==> !(#[trigger] raw[i]).nan(),
        averages_keep_order(ar),
    ensures
        forall|k: int| 0 <= k < raw.len() ==> in_unit(#[trigger] corrected(ar, raw)[k]),
        forall|j: int, k: int|
            0 <= j < k < raw.len() ==> (#[trigger] corrected(ar, raw)[j]).at_most(
                #[trigger] corrected(ar, raw)[k],
            ),
{
    let out = corrected(ar, raw);
    assert forall|k: int| 0 <= k < out.len() implies in_unit(#[trigger] out[k]) by {
        lemma_passes_in_unit(raw, k);
        lemma_down_in_unit(raw, k);
    }
    assert forall|j: int, k: int| 0 <= j < k < out.len() implies (#[trigger] out[j]).at_most(
        #[trigger] out[k],
    ) by {
        lemma_corrected_step(ar, raw, j, k);
    }
}

proof fn lemma_corrected_step<F: Fn(Op, Double, Double) -> Double>(
    ar: Arithmetic<F>,
    raw: Seq<Double>,
    j: int,
    k: int,
)
    requires
        forall|i: int| 0 <= i < raw.len() ==> !(#[trigger] raw[i]).nan(),
        averages_keep_order(ar),
        0 <= j < k < raw.len(),
    ensures
        corrected(ar, raw)[j].at_most(corrected(ar, raw)[k]),
    decreases k - j,
{
    let out = corrected(ar, raw);
    lemma_passes_in_unit(raw, k);
    lemma_passes_in_unit(raw, k - 1);
    lemma_down_in_unit(raw, k);
    lemma_down_in_unit(raw, k - 1);
    assert(out[k] == ar.times(num(HALF), ar.plus(upward(raw, k), downward(raw, k))));
    assert(out[k - 1] == ar.times(num(HALF), ar.plus(upward(raw, k - 1), downward(raw, k - 1))));
    assert(out[k - 1].at_most(out[k]));
    if j < k - 1 {
        lemma_corrected_step(ar, raw, j, k - 1);
    }
}

/// A distribution to draw from: cutoffs, tail bounds and tail models.
pub struct Classes<'a> {
    /// Cutoffs between the classes.
    pub cutoffs: &'a Vec<Double>,
    /// Lower end of the lower tail.
    pub tail_min: Double,
    /// Upper end of the upper tail.
    pub tail_max: Double,
    /// Model of the lower tail.
    pub lower_tail: TailModel,
    /// Model of the upper tail.
    pub upper_tail: TailModel,
}

/// The class of `u`: the first whose value of the distribution is no lesser;
/// past the last cutoff if there is none.
pub open spec fn is_class(ccdf: Seq<Double>, u: Double, k: int) -> bool {
    &&& 0 <= k <= ccdf.len()
    &&& forall|j: int| 0 <= j < k ==> !u.at_most(#[trigger] ccdf[j])
    &&& k < ccdf.len() ==> u.at_most(ccdf[k])
}

/// Value of the distribution below class `k`.
pub open spec fn class_floor(ccdf: Seq<Double>, k: int) -> Double {
    if k == 0 {
        num(0)
    } else {
        ccdf[k - 1]
    }
}

/// Value of the distribution at the end of class `k`.
pub open spec fn class_ceiling(ccdf: Seq<Double>, k: int) -> Double {
    if k == ccdf.len() {
        num(ONE)
    } else {
        ccdf[k]
    }
}

/// Relative position of `u` between two values of a distribution; the middle
/// where they are not apart.
pub open spec fn position<F: Fn(Op, Double, Double) -> Double>(
    ar: Arithmetic<F>,
    u: Double,
    lo: Double,
    hi: Double,
) -> Double {
    let span = ar.minus(hi, lo);
    if num(NARROWEST).lt(span) {
        ar.over(ar.minus(u, lo), span)
    } else {
        num(HALF)
    }
}

/// What drawing `u` in class `k` gives.
pub open spec fn drawn_in<F: Fn(Op, Double, Double) -> Double>(
    ar: Arithmetic<F>,
    ccdf: Seq<Double>,
    cl: Classes,
    u: Double,
    k: int,
) -> Double {
    let t = position(ar, u, class_floor(ccdf, k), class_ceiling(ccdf, k));
    if k == ccdf.len() {
        let z_lo = if k == 0 {
            cl.tail_min
        } else {
            cl.cutoffs@[k - 1]
        };
        upper_drawn(ar, cl.upper_tail, z_lo, cl.tail_max, t)
    } else if k == 0 {
        lower_drawn(ar, cl.lower_tail, cl.tail_min, cl.cutoffs@[0], t)
    } else {
        let z_lo = cl.cutoffs@[k - 1];
        ar.plus(z_lo, ar.times(t, ar.minus(cl.cutoffs@[k], z_lo)))
    }
}

/// `z` is what drawing `u` from the distribution gives.
pub open spec fn drawn<F: Fn(Op, Double, Double) -> Double>(
    ar: Arithmetic<F>,
    ccdf: Seq<Double>,
    cl: Classes,
    u: Double,
    z: Double,
) -> bool {
    exists|k: int| #[trigger] is_class(ccdf, u, k) && z == drawn_in(ar, ccdf, cl, u, k)
}

/// A value drawn from a distribution lies between its tail bounds, for an arithmetic
/// that keeps order.
pub proof fn draws_stay_in_bounds<F: Fn(Op, Double, Double) -> Double>(
    ar: Arithmetic<F>,
    ccdf: Seq<Double>,
    cl: Classes,
    u: Double,
    z: Double,
)
    requires
        keeps_order(ar),
        ccdf.len() == cl.cutoffs@.len(),
        0 < ccdf.len(),
        rises(cl.cutoffs@),
        brackets(cl.tail_min, cl.tail_max, cl.cutoffs@),
        ccdf_tails_ok(cl.lower_tail, cl.upper_tail, cl.cutoffs@.last()),
        in_unit(u),
        drawn(ar, ccdf, cl, u, z),
    ensures
        cl.tail_min.at_most(z),
        z.at_most(cl.tail_max),
{
    let k = choose|k: int| #[trigger]
        is_class(ccdf, u, k) && z == drawn_in(ar, ccdf, cl, u, k);
    let cuts = cl.cutoffs@;
    let n = cuts.len() as int;
    let lo = class_floor(ccdf, k);
    let hi = class_ceiling(ccdf, k);
    let t = position(ar, u, lo, hi);
    if k > 0 {
        assert(!u.at_most(ccdf[k - 1]));
    }
    assert(lo.nan() || lo.at_most(u));
    assert(u.at_most(hi));
    let span = ar.minus(hi, lo);
    assert(lo.nan() ==> span.nan());
    if num(NARROWEST).lt(span) {
        assert(span.positive());
        assert(in_unit(ar.over(ar.minus(u, lo), ar.minus(hi, lo))));
    }
    assert(in_unit(t));
    assert forall|i: int, j: int| 0 <= i <= j < n implies (#[trigger] cuts[i]).at_most(
        #[trigger] cuts[j],
    ) by {
        if i < j {
            assert(cuts[i].below(cuts[j]));
        } else if i == 0 {
            assert(cl.tail_min.at_most(cuts[0]));
        } else {
            assert(cuts[0].below(cuts[i]));
        }
    }
    if k == n {
        upper_draw_stays(ar, cl.upper_tail, cuts[n - 1], cl.tail_max, t);
        assert(cuts[0].at_most(cuts[n - 1]));
    } else if k == 0 {
        lower_draw_stays(ar, cl.lower_tail, cl.tail_min, cuts[0], t);
        assert(cuts[0].at_most(cuts[n - 1]));
    } else {
        assert(cuts[k - 1].at_most(cuts[k]));
        assert(cuts[0].at_most(cuts[k - 1]));
        assert(cuts[k].at_most(cuts[n - 1]));
        assert(cuts[k - 1].at_most(z) && z.at_most(cuts[k]));
    }
}

/// Averages of a number with itself give it back.
pub open spec fn averages_are_exact<F: Fn(Op, Double, Double) -> Double>(ar: Arithmetic<F>) -> bool {
    forall|a: Double|
        #![trigger ar.plus(a, a)]
        in_unit(a) ==> ar.times(num(HALF), ar.plus(a, a)) == a
}

/// A distribution that is monotone and lies between zero and one is left as it was, for
/// an arithmetic in which the average of a number with itself is that number.
pub proof fn proper_distribution_is_kept<F: Fn(Op, Double, Double) -> Double>(
    ar: Arithmetic<F>,
    raw: Seq<Double>,
)
    requires
        averages_are_exact(ar),
        forall|k: int| 0 <= k < raw.len() ==> in_unit(#[trigger] raw[k]),
        forall|j: int, k: int|
            0 <= j < k < raw.len() ==> (#[trigger] raw[j]).at_most(#[trigger] raw[k]),
    ensures
        corrected(ar, raw) == raw,
{
    assert forall|k: int| 0 <= k < raw.len() implies corrected(ar, raw)[k] == raw[k] by {
        lemma_upward_kept(raw, k);
        lemma_downward_kept(raw, k);
        assert(ar.times(num(HALF), ar.plus(raw[k], raw[k])) == raw[k]);
    }
    assert(corrected(ar, raw) =~= raw);
}

/// Correcting a distribution twice is correcting it once, for an arithmetic whose averages
/// keep order and in which the average of a number with itself is that number.
pub proof fn corrections_settle<F: Fn(Op, Double, Double) -> Double>(
    ar: Arithmetic<F>,
    raw: Seq<Double>,
)
    requires
        forall|i: int| 0 <= i < raw.len() ==> !(#[trigger] raw[i]).nan(),
        averages_keep_order(ar),
        averages_are_exact(ar),
    ensures
        corrected(ar, corrected(ar, raw)) == corrected(ar, raw),
{
    corrections_are_monotone_and_bounded(ar, raw);
    proper_distribution_is_kept(ar, corrected(ar, raw));
}

proof fn lemma_upward_kept(raw: Seq<Double>, k: int)
    requires
        forall|k: int| 0 <= k < raw.len() ==> in_unit(#[trigger] raw[k]),
        forall|j: int, k: int|
            0 <= j < k < raw.len() ==> (#[trigger] raw[j]).at_most(#[trigger] raw[k]),
        0 <= k < raw.len(),
    ensures
        upward(raw, k) == raw[k],
    decreases k,
{
    assert(in_unit(raw[k]));
    if k > 0 {
        lemma_upward_kept(raw, k - 1);
        assert(raw[k - 1].at_most(raw[k]));
    }
}

proof fn lemma_downward_kept(raw: Seq<Double>, k: int)
    requires
        forall|k: int| 0 <= k < raw.len() ==> in_unit(#[trigger] raw[k]),
        forall|j: int, k: int|
            0 <= j < k < raw.len() ==> (#[trigger] raw[j]).at_most(#[trigger] raw[k]),
        0 <= k < raw.len(),
    ensures
        downward(raw, k) == raw[k],
    decreases raw.len() - k,
{
    assert(in_unit(raw[k]));
    if k < raw.len() - 1 {
        lemma_downward_kept(raw, k + 1);
        assert(raw[k].at_most(raw[k + 1]));
    }
}

/// Draws a value from the corrected distribution with linear interpolation
/// within classes and the configured tail models. With a fixed probability for
/// `u` this is the quantile.
pub fn sample_ccdf<F: Fn(Op, Double, Double) -> Double>(
    ccdf: &Vec<Double>,
    cl: &Classes,
    u: Double,
    ar: &Arithmetic<F>,
) -> (z: Double)
    requires
        ar.total(),
        ccdf.len() == cl.cutoffs@.len(),
        !(cl.lower_tail is Hyperbolic),
    ensures
        drawn(*ar, ccdf@, *cl, u, z),
{
    let nc: usize = ccdf.len();
    let mut k: usize = 0;
    while k < nc && !u.le(ccdf[k])
        invariant
            k <= nc,
            nc == ccdf.len(),
            forall|j: int| 0 <= j < k ==> !u.at_most(#[trigger] ccdf@[j]),
        decreases nc - k,
    {
        k = k + 1;
    }
    assert(is_class(ccdf@, u, k as int));
    let f_lo: Double = if k == 0 {
        Double::zero()
    } else {
        ccdf[k - 1]
    };
    let f_hi: Double = if k == nc {
        num(ONE)
    } else {
        ccdf[k]
    };
    let span: Double = ar.minus(f_hi, f_lo);
    let t: Double = if num(NARROWEST).lt(span) {
        ar.over(ar.minus(u, f_lo), span)
    } else {
        num(HALF)
    };
    if k == nc {
        let z_lo: Double = if k == 0 {
            cl.tail_min
        } else {
            cl.cutoffs[k - 1]
        };
        draw_upper(cl.upper_tail, z_lo, cl.tail_max, t, ar)
    } else if k == 0 {
        draw_lower(cl.lower_tail, cl.tail_min, cl.cutoffs[0], t, ar)
    } else {
        let z_lo: Double = cl.cutoffs[k - 1];
        ar.plus(z_lo, ar.times(t, ar.minus(cl.cutoffs[k], z_lo)))
    }
}

/// The class of a draw is unique.
pub proof fn class_is_unique(ccdf: Seq<Double>, u: Double, j: int, k: int)
    requires
        is_class(ccdf, u, j),
        is_class(ccdf, u, k),
    ensures
        j == k,
{
    if j < k {
        assert(!u.at_most(ccdf[j]));
    }
    if k < j {
        assert(!u.at_most(ccdf[k]));
    }
}

/// Global proportions at the cutoffs, and the tail bounds.
pub struct Ladder {
    /// Proportions, one per cutoff.
    pub props: Vec<Double>,
    /// Lower tail bound.
    pub tail_min: Double,
    /// Upper tail bound.
    pub tail_max: Double,
}

/// The bounds of the tails: those given, or the extreme values.
pub open spec fn are_bounds(
    values: Seq<Double>,
    given_min: Option<Double>,
    given_max: Option<Double>,
    lo: Double,
    hi: Double,
) -> bool {
    is_lower_bound(given_min, values, lo) && is_upper_bound(given_max, values, hi)
}

/// What the ladder of cutoffs is: the first check that fails tells why there is
/// none.
pub open spec fn ladder_outcome<F: Fn(Op, Double, Double) -> Double>(
    ar: Arithmetic<F>,
    values: Seq<Double>,
    weights: Option<Seq<Double>>,
    cutoffs: Seq<Double>,
    given_min: Option<Double>,
    given_max: Option<Double>,
    lower: TailModel,
    upper: TailModel,
    r: Result<Ladder, GeostatError>,
) -> bool {
    let props = shares_of(ar, values, weights, cutoffs);
    if !weights_ok(ar, weights, values.len()) {
        r matches Err(e) && weights_refused(weights, values.len(), e)
    } else if !shares_ok(props) {
        r matches Err(e) && shares_refused(props, cutoffs, e)
    } else {
        exists|lo: Double, hi: Double| #[trigger]
            are_bounds(values, given_min, given_max, lo, hi) && if !brackets(lo, hi, cutoffs) {
                r matches Err(e) && invalid(e, "tail bounds must bracket the cutoffs"@)
            } else if !ccdf_tails_ok(lower, upper, cutoffs.last()) {
                r matches Err(e) && ccdf_tails_refused(lower, upper, cutoffs.last(), e)
            } else {
                r matches Ok(l) && l.props@ == props && l.tail_min == lo && l.tail_max == hi
            }
    }
}

/// Global proportions and tail bounds of the data, checked.
pub fn climb<F: Fn(Op, Double, Double) -> Double>(
    values: &Vec<Double>,
    weights: &Option<Vec<Double>>,
    cutoffs: &Vec<Double>,
    given_min: Option<Double>,
    given_max: Option<Double>,
    lower: TailModel,
    upper: TailModel,
    ar: &Arithmetic<F>,
) -> (r: Result<Ladder, GeostatError>)
    requires
        ar.total(),
        values.len() < 2 * HIDDEN,
        cutoffs.len() > 0,
        forall|i: int| 0 <= i < values.len() ==> !(#[trigger] values@[i]).nan(),
    ensures
        ladder_outcome(
            *ar,
            values@,
            weight_list(*weights),
            cutoffs@,
            given_min,
            given_max,
            lower,
            upper,
            r,
        ),
        r matches Ok(l) ==> l.props@.len() == cutoffs@.len() && !(lower is Hyperbolic),
{
    let nc: usize = cutoffs.len();
    let props: Vec<Double> = match proportions(values, weights, cutoffs, ar) {
        Err(e) => {
            return Err(e);
        },
        Ok(p) => p,
    };
    match check_shares(&props, cutoffs) {
        Err(e) => {
            return Err(e);
        },
        Ok(_) => {},
    }
    let (dmin, dmax): (Double, Double) = range_of(values);
    let tail_min: Double = match given_min {
        Some(z) => z,
        None => dmin,
    };
    let tail_max: Double = match given_max {
        Some(z) => z,
        None => dmax,
    };
    assert(are_bounds(values@, given_min, given_max, tail_min, tail_max));
    if !tail_min.le(cutoffs[0]) || !cutoffs[nc - 1].le(tail_max) {
        return Err(invalid_parameter("tail bounds must bracket the cutoffs"));
    }
    match validate_ccdf_tails(lower, upper, cutoffs[nc - 1]) {
        Err(e) => {
            return Err(e);
        },
        Ok(_) => {},
    }
    Ok(Ladder { props, tail_min, tail_max })
}

/// Probability of class `k`.
pub open spec fn class_share<F: Fn(Op, Double, Double) -> Double>(
    ar: Arithmetic<F>,
    ccdf: Seq<Double>,
    k: int,
) -> Double {
    ar.minus(class_ceiling(ccdf, k), class_floor(ccdf, k)).max(num(0))
}

/// First and second moment of a variable uniform between two values.
pub open spec fn uniform_moments<F: Fn(Op, Double, Double) -> Double>(
    ar: Arithmetic<F>,
    lo: Double,
    hi: Double,
) -> (Double, Double) {
    (
        ar.times(num(HALF), ar.plus(lo, hi)),
        ar.over(
            ar.plus(ar.plus(ar.times(lo, lo), ar.times(lo, hi)), ar.times(hi, hi)),
            num(THREE),
        ),
    )
}

/// First and second moment within class `k`: tail models at the ends, uniform
/// between cutoffs.
pub open spec fn class_moments<F: Fn(Op, Double, Double) -> Double>(
    ar: Arithmetic<F>,
    cl: Classes,
    k: int,
) -> (Double, Double) {
    let nc = cl.cutoffs@.len();
    if k == 0 {
        lower_moments_of(ar, cl.lower_tail, cl.tail_min, cl.cutoffs@[0])
    } else if k == nc {
        upper_moments_of(ar, cl.upper_tail, cl.cutoffs@[nc - 1], cl.tail_max)
    } else {
        uniform_moments(ar, cl.cutoffs@[k - 1], cl.cutoffs@[k])
    }
}

/// First and second moment over the first `n` classes.
pub open spec fn moments_before<F: Fn(Op, Double, Double) -> Double>(
    ar: Arithmetic<F>,
    ccdf: Seq<Double>,
    cl: Classes,
    n: int,
) -> (Double, Double)
    decreases n,
{
    if n <= 0 {
        (num(0), num(0))
    } else {
        let before = moments_before(ar, ccdf, cl, n - 1);
        let p = class_share(ar, ccdf, n - 1);
        if p.is_positive() {
            let m = class_moments(ar, cl, n - 1);
            (ar.plus(before.0, ar.times(p, m.0)), ar.plus(before.1, ar.times(p, m.1)))
        } else {
            before
        }
    }
}

/// Mean and variance of a distribution.
pub open spec fn moments_of<F: Fn(Op, Double, Double) -> Double>(
    ar: Arithmetic<F>,
    ccdf: Seq<Double>,
    cl: Classes,
) -> (Double, Double) {
    let m = moments_before(ar, ccdf, cl, ccdf.len() as int + 1);
    (m.0, ar.minus(m.1, ar.times(m.0, m.0)).max(num(0)))
}

/// The classes, not where their cutoffs are held, determine the moments.
pub(crate) proof fn lemma_same_moments<F: Fn(Op, Double, Double) -> Double>(
    ar: Arithmetic<F>,
    ccdf: Seq<Double>,
    a: Classes,
    b: Classes,
)
    requires
        a.cutoffs@ == b.cutoffs@,
        a.tail_min == b.tail_min,
        a.tail_max == b.tail_max,
        a.lower_tail == b.lower_tail,
        a.upper_tail == b.upper_tail,
    ensures
        moments_of(ar, ccdf, a) == moments_of(ar, ccdf, b),
{
    lemma_same_moments_before(ar, ccdf, a, b, ccdf.len() as int + 1);
}

proof fn lemma_same_moments_before<F: Fn(Op, Double, Double) -> Double>(
    ar: Arithmetic<F>,
    ccdf: Seq<Double>,
    a: Classes,
    b: Classes,
    n: int,
)
    requires
        a.cutoffs@ == b.cutoffs@,
        a.tail_min == b.tail_min,
        a.tail_max == b.tail_max,
        a.lower_tail == b.lower_tail,
        a.upper_tail == b.upper_tail,
    ensures
        moments_before(ar, ccdf, a, n) == moments_before(ar, ccdf, b, n),
    decreases n,
{
    if n > 0 {
        lemma_same_moments_before(ar, ccdf, a, b, n - 1);
    }
}

/// Mean and variance of the distribution assuming uniformity within classes,
/// with the configured tail models at the ends.
pub fn ccdf_moments<F: Fn(Op, Double, Double) -> Double>(
    ccdf: &Vec<Double>,
    cl: &Classes,
    ar: &Arithmetic<F>,
) -> (r: (Double, Double))
    requires
        ar.total(),
        ccdf.len() == cl.cutoffs@.len(),
        0 < ccdf.len() < usize::MAX,
        !(cl.lower_tail is Hyperbolic),
    ensures
        r == moments_of(*ar, ccdf@, *cl),
{
    let nc: usize = ccdf.len();
    let mut mean: Double = Double::zero();
    let mut m2: Double = Double::zero();
    for k in 0..nc + 1
        invariant
            ar.total(),
            nc == ccdf.len(),
            nc == cl.cutoffs@.len(),
            0 < nc < usize::MAX,
            !(cl.lower_tail is Hyperbolic),
            (mean, m2) == moments_before(*ar, ccdf@, *cl, k as int),
    {
        let f_lo: Double = if k == 0 {
            Double::zero()
        } else {
            ccdf[k - 1]
        };
        let f_hi: Double = if k < nc {
            ccdf[k]
        } else {
            num(ONE)
        };
        let p: Double = ar.minus(f_hi, f_lo).max(num(0));
        if p.is_positive() {
            let (ez, ez2): (Double, Double) = if k == 0 {
                lower_moments(cl.lower_tail, cl.tail_min, cl.cutoffs[0], ar)
            } else if k == nc {
                upper_moments(cl.upper_tail, cl.cutoffs[nc - 1], cl.tail_max, ar)
            } else {
                let z_lo: Double = cl.cutoffs[k - 1];
                let z_hi: Double = cl.cutoffs[k];
                (
                    ar.times(num(HALF), ar.plus(z_lo, z_hi)),
                    ar.over(
                        ar.plus(
                            ar.plus(ar.times(z_lo, z_lo), ar.times(z_lo, z_hi)),
                            ar.times(z_hi, z_hi),
                        ),
                        num(THREE),
                    ),
                )
            };
            mean = ar.plus(mean, ar.times(p, ez));
            m2 = ar.plus(m2, ar.times(p, ez2));
        }
    }
    (mean, ar.minus(m2, ar.times(mean, mean)).max(num(0)))
}

/// A draw from a distribution is one value.
pub proof fn draw_is_unique<F: Fn(Op, Double, Double) -> Double>(
    ar: Arithmetic<F>,
    ccdf: Seq<Double>,
    cl: Classes,
    u: Double,
    a: Double,
    b: Double,
)
    requires
        drawn(ar, ccdf, cl, u, a),
        drawn(ar, ccdf, cl, u, b),
    ensures
        a == b,
{
    let j = choose|k: int| #[trigger] is_class(ccdf, u, k) && a == drawn_in(ar, ccdf, cl, u, k);
    let k = choose|k: int| #[trigger] is_class(ccdf, u, k) && b == drawn_in(ar, ccdf, cl, u, k);
    class_is_unique(ccdf, u, j, k);
}

} // verus!

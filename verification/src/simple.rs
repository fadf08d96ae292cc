//! Simple kriging of a field with mean zero: the covariance system is positive
//! definite (its diagonal is stabilized) and solved by Cholesky.

use vstd::prelude::*;

use crate::arith::{num, Arithmetic, Op};
use crate::covariance::{gap_of, ordered_gap, Covariance};
use crate::double::Double;
use crate::error::GeostatError;
use crate::kriging::copy_values;
use crate::linalg::{
    cholesky_solve_in_place, definite_solution, fails_at, positive_definite,
    reports_column,
};

verus! {

/// Bit pattern of the share of the sill added to the diagonal: simulated nodes
/// can lie arbitrarily close to data.
pub const STABILIZER: u64 = 0x3E11_2E0B_E826_D695;

/// Entry of the diagonal.
pub open spec fn steady_sill<F: Fn(Op, Double, Double) -> Double>(ar: Arithmetic<F>, sill: Double) -> Double {
    ar.plus(sill, ar.times(sill, num(STABILIZER)))
}

/// Entry of the system matrix.
pub open spec fn sk_cell<const D: usize, F: Fn(Op, Double, Double) -> Double, G: Fn([Double; D]) -> Double>(
    ar: Arithmetic<F>,
    model: Covariance<D, G>,
    places: Seq<[Double; D]>,
    nb: Seq<usize>,
    r: int,
    c: int,
) -> Double {
    if r == c {
        steady_sill(ar, model.sill)
    } else {
        model.remaining(ar, ordered_gap(ar, places, nb, r, c))
    }
}

/// The system matrix, by rows.
pub open spec fn sk_matrix<const D: usize, F: Fn(Op, Double, Double) -> Double, G: Fn([Double; D]) -> Double>(
    ar: Arithmetic<F>,
    model: Covariance<D, G>,
    places: Seq<[Double; D]>,
    nb: Seq<usize>,
) -> Seq<Double> {
    let n = nb.len();
    Seq::new(
        n * n,
        |t: int| sk_cell(ar, model, places, nb, t / n as int, t % n as int),
    )
}

/// Right-hand side: covariances with the target.
pub open spec fn sk_rhs<const D: usize, F: Fn(Op, Double, Double) -> Double, G: Fn([Double; D]) -> Double>(
    ar: Arithmetic<F>,
    model: Covariance<D, G>,
    places: Seq<[Double; D]>,
    nb: Seq<usize>,
    target: Seq<Double>,
) -> Seq<Double> {
    Seq::new(nb.len(), |r: int| model.between(ar, places[nb[r] as int]@, target))
}

/// The error reports the first pivot that is not positive.
pub open spec fn reports_indefinite<F: Fn(Op, Double, Double) -> Double>(
    ar: Arithmetic<F>,
    a: Seq<Double>,
    n: nat,
    e: GeostatError,
) -> bool {
    exists|k: int| #[trigger] fails_at(ar, a, n, k) && reports_column(ar, a, n, k, e)
}

/// What the weights are: the solution of the system, or the error that its
/// matrix is not positive definite.
pub open spec fn sk_weights<const D: usize, F: Fn(Op, Double, Double) -> Double, G: Fn([Double; D]) -> Double>(
    ar: Arithmetic<F>,
    model: Covariance<D, G>,
    places: Seq<[Double; D]>,
    nb: Seq<usize>,
    target: Seq<Double>,
    r: Result<Seq<Double>, GeostatError>,
) -> bool {
    let a = sk_matrix(ar, model, places, nb);
    if positive_definite(ar, a, nb.len()) {
        r matches Ok(w) && definite_solution(
            ar,
            a,
            nb.len(),
            sk_rhs(ar, model, places, nb, target),
            w,
        )
    } else {
        r matches Err(e) && reports_indefinite(ar, a, nb.len(), e)
    }
}

/// The weights, as a sequence.
pub open spec fn as_list(r: Result<Vec<Double>, GeostatError>) -> Result<Seq<Double>, GeostatError> {
    match r {
        Ok(w) => Ok(w@),
        Err(e) => Err(e),
    }
}

/// The weights of conditioning points, and the covariances with the target.
pub fn simple_weights<const D: usize, F: Fn(Op, Double, Double) -> Double, G: Fn([Double; D]) -> Double>(
    coords: &Vec<[Double; D]>,
    nb: &Vec<usize>,
    model: &Covariance<D, G>,
    target: &[Double; D],
    ar: &Arithmetic<F>,
) -> (r: (Result<Vec<Double>, GeostatError>, Vec<Double>))
    requires
        ar.total(),
        model.total(),
        nb.len() * nb.len() <= usize::MAX,
        forall|i: int| 0 <= i < nb.len() ==> (#[trigger] nb@[i]) < coords.len(),
    ensures
        sk_weights(*ar, *model, coords@, nb@, target@, as_list(r.0)),
        r.0 matches Ok(w) ==> w.len() == nb.len(),
        r.1@ == sk_rhs(*ar, *model, coords@, nb@, target@),
{
    let n: usize = nb.len();
    let ghost want = sk_matrix(*ar, *model, coords@, nb@);
    let diagonal: Double = ar.plus(model.sill, ar.times(model.sill, num(STABILIZER)));
    let mut a: Vec<Double> = Vec::new();
    let mut b: Vec<Double> = Vec::new();
    assert(0 * n == 0) by (nonlinear_arith);
    for r in 0..n
        invariant
            ar.total(),
            model.total(),
            n == nb.len(),
            n * n <= usize::MAX,
            forall|i: int| 0 <= i < n ==> (#[trigger] nb@[i]) < coords.len(),
            diagonal == steady_sill(*ar, model.sill),
            want == sk_matrix(*ar, *model, coords@, nb@),
            a.len() == r * n,
            forall|t: int| 0 <= t < a.len() ==> #[trigger] a@[t] == want[t],
            b@ =~= sk_rhs(*ar, *model, coords@, nb@, target@).take(r as int),
    {
        for c in 0..n
            invariant
                ar.total(),
                model.total(),
                n == nb.len(),
                n * n <= usize::MAX,
                r < n,
                forall|i: int| 0 <= i < n ==> (#[trigger] nb@[i]) < coords.len(),
                diagonal == steady_sill(*ar, model.sill),
                want == sk_matrix(*ar, *model, coords@, nb@),
                a.len() == r * n + c,
                forall|t: int| 0 <= t < a.len() ==> #[trigger] a@[t] == want[t],
        {
            proof {
                vstd::arithmetic::div_mod::lemma_fundamental_div_mod_converse(
                    r * n + c,
                    n as int,
                    r as int,
                    c as int,
                );
                assert(0 <= r * n + c < n * n) by (nonlinear_arith)
                    requires
                        r < n,
                        c < n,
                ;
            }
            let v: Double = if r == c {
                diagonal
            } else {
                model.remaining_dh(gap_of(coords, nb, r, c, ar), ar)
            };
            assert(v == want[r * n + c]);
            a.push(v);
        }
        assert((r + 1) * n == r * n + n) by (nonlinear_arith);
        b.push(model.covariance_between(&coords[nb[r]], target, ar));
    }
    assert(a@ =~= want);
    assert(b@ =~= sk_rhs(*ar, *model, coords@, nb@, target@));
    let mut w: Vec<Double> = copy_values(&b);
    let solved: Result<(), GeostatError> = cholesky_solve_in_place(&mut a, n, &mut w, ar);
    match solved {
        Ok(_) => (Ok(w), b),
        Err(e) => {
            proof {
                let k = choose|k: int| #[trigger]
                    fails_at(*ar, want, n as nat, k) && reports_column(*ar, want, n as nat, k, e);
                assert(!crate::linalg::positive_pivot(*ar, want, n as nat, k));
            }
            (Err(e), b)
        },
    }
}

/// Mean and variance that weights give for a field with mean zero.
pub open spec fn sk_moments<F: Fn(Op, Double, Double) -> Double>(
    ar: Arithmetic<F>,
    sill: Double,
    w: Seq<Double>,
    b: Seq<Double>,
    values: Seq<Double>,
) -> (Double, Double) {
    (
        ar.dot_from(num(0), w, values, values.len() as int),
        ar.minus(sill, ar.dot_from(num(0), w, b, values.len() as int)).max(num(0)),
    )
}

/// What simple kriging at a target gives.
pub open spec fn sk_estimate<const D: usize, F: Fn(Op, Double, Double) -> Double, G: Fn([Double; D]) -> Double>(
    ar: Arithmetic<F>,
    model: Covariance<D, G>,
    places: Seq<[Double; D]>,
    nb: Seq<usize>,
    values: Seq<Double>,
    target: Seq<Double>,
    r: Result<(Double, Double), GeostatError>,
) -> bool {
    exists|w: Result<Seq<Double>, GeostatError>| #[trigger]
        sk_weights(ar, model, places, nb, target, w) && match w {
            Err(e) => r == Err::<(Double, Double), GeostatError>(e),
            Ok(w) => r == Ok::<(Double, Double), GeostatError>(
                sk_moments(ar, model.sill, w, sk_rhs(ar, model, places, nb, target), values),
            ),
        }
}

/// An estimate that simple kriging gives is the only outcome that it can have.
pub proof fn sk_estimate_is_unique<const D: usize, F: Fn(Op, Double, Double) -> Double, G: Fn([Double; D]) -> Double>(
    ar: Arithmetic<F>,
    model: Covariance<D, G>,
    places: Seq<[Double; D]>,
    nb: Seq<usize>,
    values: Seq<Double>,
    target: Seq<Double>,
    m: (Double, Double),
    r: Result<(Double, Double), GeostatError>,
)
    requires
        sk_estimate(ar, model, places, nb, values, target, Ok(m)),
        sk_estimate(ar, model, places, nb, values, target, r),
    ensures
        r == Ok::<(Double, Double), GeostatError>(m),
{
    let a = sk_matrix(ar, model, places, nb);
    let b = sk_rhs(ar, model, places, nb, target);
    let ok: Result<(Double, Double), GeostatError> = Ok(m);
    let w1 = choose|w: Result<Seq<Double>, GeostatError>| #[trigger]
        sk_weights(ar, model, places, nb, target, w) && match w {
            Err(e) => ok == Err::<(Double, Double), GeostatError>(e),
            Ok(w) => ok == Ok::<(Double, Double), GeostatError>(
                sk_moments(ar, model.sill, w, b, values),
            ),
        };
    let w2 = choose|w: Result<Seq<Double>, GeostatError>| #[trigger]
        sk_weights(ar, model, places, nb, target, w) && match w {
            Err(e) => r == Err::<(Double, Double), GeostatError>(e),
            Ok(w) => r == Ok::<(Double, Double), GeostatError>(
                sk_moments(ar, model.sill, w, b, values),
            ),
        };
    crate::linalg::definite_solution_is_unique(ar, a, nb.len(), b, w1->Ok_0, w2->Ok_0);
}

/// Simple kriging with mean zero: mean and variance at a target from the values
/// of its conditioning points.
pub fn simple_kriging_ns<const D: usize, F: Fn(Op, Double, Double) -> Double, G: Fn([Double; D]) -> Double>(
    coords: &Vec<[Double; D]>,
    nb: &Vec<usize>,
    values: &Vec<Double>,
    model: &Covariance<D, G>,
    target: &[Double; D],
    ar: &Arithmetic<F>,
) -> (r: Result<(Double, Double), GeostatError>)
    requires
        ar.total(),
        model.total(),
        nb.len() * nb.len() <= usize::MAX,
        values.len() == nb.len(),
        forall|i: int| 0 <= i < nb.len() ==> (#[trigger] nb@[i]) < coords.len(),
    ensures
        sk_estimate(*ar, *model, coords@, nb@, values@, target@, r),
{
    let (solved, b): (Result<Vec<Double>, GeostatError>, Vec<Double>) = simple_weights(
        coords,
        nb,
        model,
        target,
        ar,
    );
    assert(sk_weights(*ar, *model, coords@, nb@, target@, as_list(solved)));
    match solved {
        Err(e) => Err(e),
        Ok(w) => {
            let n: usize = nb.len();
            let mean: Double = ar.dot(Double::zero(), &w, values, n);
            let reduction: Double = ar.dot(Double::zero(), &w, &b, n);
            Ok((mean, ar.minus(model.sill, reduction).max(num(0))))
        },
    }
}

} // verus!

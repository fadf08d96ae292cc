//! Work that fans out over threads with results in index order.

use rayon::iter::{IntoParallelIterator, ParallelIterator};
use vstd::prelude::*;

use crate::error::GeostatError;

verus! {

/// Maps `0..n` to a vector, in parallel: rayon's `ParallelIterator::map` and
/// `collect` over an index range. Element `i` is what `f(i)` returned; rayon
/// collects a range in index order whatever order the threads run in.
#[verifier::external_body]
pub fn par_map<T: Send, F: Fn(usize) -> T + Send + Sync>(n: usize, f: F) -> (out: Vec<T>)
    requires
        forall|i: usize| i < n ==> #[trigger] call_requires(f, (i,)),
    ensures
        out.len() == n,
        forall|i: int|
            0 <= i < n ==> call_ensures(f, (i as usize,), #[trigger] out@[i]),
{
    (0..n).into_par_iter().map(f).collect()
}

/// Fallible variant of [`par_map`]: rayon's `collect` into a `Result`. All
/// results if every call succeeds; otherwise the error of one of the calls
/// that failed (which one is left open when several fail).
#[verifier::external_body]
pub fn par_try_map<T: Send, F: Fn(usize) -> Result<T, GeostatError> + Send + Sync>(
    n: usize,
    f: F,
) -> (out: Result<Vec<T>, GeostatError>)
    requires
        forall|i: usize| i < n ==> #[trigger] call_requires(f, (i,)),
    ensures
        out matches Ok(v) ==> v.len() == n && forall|i: int|
            0 <= i < n ==> call_ensures(f, (i as usize,), Ok(#[trigger] v@[i])),
        out matches Err(e) ==> exists|i: usize| i < n && #[trigger] call_ensures(f, (i,), Err(e)),
{
    (0..n).into_par_iter().map(f).collect()
}

/// Number of work chunks to split pair-accumulation loops into.
///
/// Fixed, independent of the runtime thread count: chunk boundaries fix the
/// order in which partial sums are merged, and addition of doubles is not
/// associative, so a stable partition keeps results the same on every machine.
pub fn n_chunks() -> (n: usize)
    ensures
        n == 256,
{
    256
}

} // verus!

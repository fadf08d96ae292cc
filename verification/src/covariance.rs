//! Covariance models: the seam for plugging any covariance or semivariogram
//! function into the estimators.

use vstd::prelude::*;

use crate::arith::{num, Arithmetic, Op};
use crate::double::Double;
use crate::model::ModelTraits;

verus! {

/// A covariance or semivariogram model: what answers how two points at a
/// separation are spatially related.
pub struct Covariance<const D: usize, G> {
    /// Semivariance for a separation vector. By convention it is zero at zero
    /// separation.
    pub gamma: G,
    /// Covariance for a separation vector, where the model computes one of its
    /// own, the sill at zero separation; otherwise it is what the semivariance
    /// leaves of the sill.
    pub covariance: Option<G>,
    /// Covariance at zero separation.
    pub sill: Double,
    /// Discontinuity of the covariance at zero separation.
    pub nugget: Double,
    /// What the checks of the estimators read.
    pub traits: ModelTraits,
}

/// The zero vector.
pub open spec fn no_separation(dims: nat) -> Seq<Double> {
    Seq::new(dims, |d: int| num(0))
}

/// `f` may compute `r` for the separation `h`.
pub open spec fn gives<const D: usize, G: Fn([Double; D]) -> Double>(
    f: G,
    h: Seq<Double>,
    r: Double,
) -> bool {
    exists|dh: [Double; D]| dh@ == h && #[trigger] call_ensures(f, (dh,), r)
}

/// What `f` computes for the separation `h`.
pub open spec fn value_for<const D: usize, G: Fn([Double; D]) -> Double>(f: G, h: Seq<Double>) -> Double {
    choose|r: Double| gives(f, h, r)
}

/// `f` can be computed for every separation, and gives one value.
pub open spec fn computable<const D: usize, G: Fn([Double; D]) -> Double>(f: G) -> bool {
    &&& forall|dh: [Double; D]| #[trigger] call_requires(f, (dh,))
    &&& forall|dh: [Double; D], r: Double| #[trigger]
        call_ensures(f, (dh,), r) ==> r == value_for(f, dh@)
}

impl<const D: usize, G: Fn([Double; D]) -> Double> Covariance<D, G> {
    /// Semivariance for a separation.
    pub open spec fn semivariance(&self, h: Seq<Double>) -> Double {
        value_for(self.gamma, h)
    }

    /// The model can be computed for every separation, and gives one value.
    pub open spec fn total(&self) -> bool {
        &&& computable(self.gamma)
        &&& self.covariance matches Some(c) ==> computable(c) && value_for(
            c,
            no_separation(D as nat),
        ) == self.sill
    }

    /// Covariance for a separation: that of the model, or what the semivariance
    /// leaves of the sill.
    pub open spec fn covariance<F: Fn(Op, Double, Double) -> Double>(
        &self,
        ar: Arithmetic<F>,
        h: Seq<Double>,
    ) -> Double {
        match self.covariance {
            Some(c) => value_for(c, h),
            None => self.remaining(ar, h),
        }
    }

    /// What the semivariance for a separation leaves of the sill: the entry of a
    /// system of covariances.
    pub open spec fn remaining<F: Fn(Op, Double, Double) -> Double>(
        &self,
        ar: Arithmetic<F>,
        h: Seq<Double>,
    ) -> Double {
        ar.minus(self.sill, self.semivariance(h))
    }

    /// Covariance of two points, from the semivariance.
    pub open spec fn between<F: Fn(Op, Double, Double) -> Double>(
        &self,
        ar: Arithmetic<F>,
        p: Seq<Double>,
        q: Seq<Double>,
    ) -> Double {
        self.remaining(ar, ar.separation(p, q))
    }

    /// Entry of a kriging system for a separation: what the semivariance leaves of
    /// the sill, or the semivariance where the model has no covariance.
    pub open spec fn entry<F: Fn(Op, Double, Double) -> Double>(
        &self,
        ar: Arithmetic<F>,
        h: Seq<Double>,
    ) -> Double {
        if self.traits.has_power {
            self.semivariance(h)
        } else {
            self.remaining(ar, h)
        }
    }

    /// Semivariance for separation vector `dh`.
    pub fn gamma_dh(&self, dh: [Double; D]) -> (r: Double)
        requires
            self.total(),
        ensures
            r == self.semivariance(dh@),
    {
        (self.gamma)(dh)
    }

    /// Covariance for separation vector `dh`.
    pub fn covariance_dh<F: Fn(Op, Double, Double) -> Double>(
        &self,
        dh: [Double; D],
        ar: &Arithmetic<F>,
    ) -> (r: Double)
        requires
            self.total(),
            ar.total(),
        ensures
            r == self.covariance(*ar, dh@),
    {
        match &self.covariance {
            Some(c) => c(dh),
            None => self.remaining_dh(dh, ar),
        }
    }

    /// What the semivariance for separation vector `dh` leaves of the sill.
    pub fn remaining_dh<F: Fn(Op, Double, Double) -> Double>(
        &self,
        dh: [Double; D],
        ar: &Arithmetic<F>,
    ) -> (r: Double)
        requires
            self.total(),
            ar.total(),
        ensures
            r == self.remaining(*ar, dh@),
    {
        ar.minus(self.sill, (self.gamma)(dh))
    }

    /// Covariance of two points, from the semivariance.
    pub fn covariance_between<F: Fn(Op, Double, Double) -> Double>(
        &self,
        p: &[Double; D],
        q: &[Double; D],
        ar: &Arithmetic<F>,
    ) -> (r: Double)
        requires
            self.total(),
            ar.total(),
        ensures
            r == self.between(*ar, p@, q@),
    {
        self.remaining_dh(ar.sep(p, q), ar)
    }

    /// Entry of a kriging system for separation vector `dh`.
    pub fn system_entry<F: Fn(Op, Double, Double) -> Double>(
        &self,
        dh: [Double; D],
        ar: &Arithmetic<F>,
    ) -> (r: Double)
        requires
            self.total(),
            ar.total(),
        ensures
            r == self.entry(*ar, dh@),
    {
        if self.traits.has_power {
            self.gamma_dh(dh)
        } else {
            self.remaining_dh(dh, ar)
        }
    }

    /// Discontinuity of the covariance at zero separation.
    pub fn nugget(&self) -> (r: Double)
        ensures
            r == self.nugget,
    {
        self.nugget
    }

    /// Whether the model has no covariance function at all (infinite variance).
    pub fn has_power(&self) -> (b: bool)
        ensures
            b == self.traits.has_power,
    {
        self.traits.has_power
    }

    /// Whether the model is a valid covariance in the dimension of the data.
    pub fn is_valid_dim(&self) -> (b: bool)
        ensures
            b == (self.traits.invalid_kind is None),
    {
        self.traits.invalid_kind.is_none()
    }
}

/// Separation of two conditioning points, the one earlier in the list first.
pub open spec fn ordered_gap<const D: usize, F: Fn(Op, Double, Double) -> Double>(
    ar: Arithmetic<F>,
    places: Seq<[Double; D]>,
    nb: Seq<usize>,
    r: int,
    c: int,
) -> Seq<Double> {
    let (a, b) = if r < c {
        (r, c)
    } else {
        (c, r)
    };
    ar.separation(places[nb[a] as int]@, places[nb[b] as int]@)
}

/// Separation vector of two conditioning points, the one earlier in the list
/// first.
pub fn gap_of<const D: usize, F: Fn(Op, Double, Double) -> Double>(
    coords: &Vec<[Double; D]>,
    nb: &Vec<usize>,
    r: usize,
    c: usize,
    ar: &Arithmetic<F>,
) -> (dh: [Double; D])
    requires
        ar.total(),
        r < nb.len(),
        c < nb.len(),
        forall|i: int| 0 <= i < nb.len() ==> (#[trigger] nb@[i]) < coords.len(),
    ensures
        dh@ == ordered_gap(*ar, coords@, nb@, r as int, c as int),
{
    if r < c {
        ar.sep(&coords[nb[r]], &coords[nb[c]])
    } else {
        ar.sep(&coords[nb[c]], &coords[nb[r]])
    }
}

/// The zero vector of the dimension of `like`.
pub fn zero_vector<const D: usize>(like: &[Double; D]) -> (r: [Double; D])
    ensures
        r@ == no_separation(D as nat),
{
    let mut r: [Double; D] = *like;
    for d in 0..D
        invariant
            forall|i: int| 0 <= i < d ==> #[trigger] r@[i] == num(0),
    {
        r[d] = Double::zero();
    }
    assert(r@ =~= no_separation(D as nat));
    r
}

} // verus!

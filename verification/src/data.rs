//! Spatial point data containers.

use vstd::prelude::*;

use crate::arith::{Arithmetic, Op};
use crate::double::{Double, HIDDEN};
use crate::error::{GeostatError, Message};
use crate::text::{concat4, counts_text, decimal, digits};

verus! {

/// Every coordinate of the point is finite.
pub open spec fn finite_point<const D: usize>(p: [Double; D]) -> bool {
    forall|d: int| 0 <= d < D ==> (#[trigger] p@[d]).finite()
}

/// The two points agree in every coordinate.
pub open spec fn same_place<const D: usize>(p: [Double; D], q: [Double; D]) -> bool {
    forall|d: int| 0 <= d < D ==> (#[trigger] p@[d]).equals(q@[d])
}

/// All points are finite.
pub open spec fn finite_points<const D: usize>(coords: Seq<[Double; D]>) -> bool {
    forall|i: int| 0 <= i < coords.len() ==> finite_point(#[trigger] coords[i])
}

/// All values are finite.
pub open spec fn finite_values(values: Seq<Double>) -> bool {
    forall|i: int| 0 <= i < values.len() ==> (#[trigger] values[i]).finite()
}

/// A set of D-dimensional sample points with one attribute value per point.
///
/// Coordinates are planar/projected; distances are Euclidean.
#[derive(Debug)]
pub struct PointSet<const D: usize> {
    coords: Vec<[Double; D]>,
    values: Vec<Double>,
}

fn is_finite_point<const D: usize>(p: &[Double; D]) -> (b: bool)
    ensures
        b == finite_point(*p),
{
    for d in 0..D
        invariant
            forall|e: int| 0 <= e < d ==> (#[trigger] p@[e]).finite(),
    {
        if !p[d].is_finite() {
            return false;
        }
    }
    true
}

/// A copy of a list of points.
pub fn copy_points<const D: usize>(coords: &Vec<[Double; D]>) -> (out: Vec<[Double; D]>)
    ensures
        out@ == coords@,
{
    let mut out: Vec<[Double; D]> = Vec::new();
    for i in 0..coords.len()
        invariant
            out@ =~= coords@.take(i as int),
    {
        out.push(coords[i]);
    }
    assert(out@ =~= coords@);
    out
}

/// Whether every point of a list is finite.
pub fn all_points_finite<const D: usize>(coords: &Vec<[Double; D]>) -> (b: bool)
    ensures
        b == finite_points(coords@),
{
    for i in 0..coords.len()
        invariant
            forall|j: int| 0 <= j < i ==> finite_point(#[trigger] coords@[j]),
    {
        if !is_finite_point(&coords[i]) {
            return false;
        }
    }
    true
}

/// Whether every value of a list is finite.
pub fn all_values_finite(values: &Vec<Double>) -> (b: bool)
    ensures
        b == finite_values(values@),
{
    for i in 0..values.len()
        invariant
            forall|j: int| 0 <= j < i ==> (#[trigger] values@[j]).finite(),
    {
        if !values[i].is_finite() {
            return false;
        }
    }
    true
}

/// Whether two points agree in every coordinate.
pub fn is_same_place<const D: usize>(p: &[Double; D], q: &[Double; D]) -> (b: bool)
    ensures
        b == same_place(*p, *q),
{
    for d in 0..D
        invariant
            forall|e: int| 0 <= e < d ==> (#[trigger] p@[e]).equals(q@[e]),
    {
        if !p[d].eq_value(q[d]) {
            return false;
        }
    }
    true
}

/// `v` is a smallest coordinate along axis `d`.
pub open spec fn lowest<const D: usize>(v: Double, coords: Seq<[Double; D]>, d: int) -> bool {
    &&& exists|i: int| 0 <= i < coords.len() && (#[trigger] coords[i])@[d] == v
    &&& forall|i: int| 0 <= i < coords.len() ==> v.at_most((#[trigger] coords[i])@[d])
}

/// `v` is a largest coordinate along axis `d`.
pub open spec fn highest<const D: usize>(v: Double, coords: Seq<[Double; D]>, d: int) -> bool {
    &&& exists|i: int| 0 <= i < coords.len() && (#[trigger] coords[i])@[d] == v
    &&& forall|i: int| 0 <= i < coords.len() ==> (#[trigger] coords[i])@[d].at_most(v)
}

/// Least of the first `n` coordinates along axis `d`, taken in turn.
pub open spec fn least_coord<const D: usize>(coords: Seq<[Double; D]>, d: int, n: int) -> Double
    decreases n,
{
    if n <= 1 {
        coords[0]@[d]
    } else {
        least_coord(coords, d, n - 1).min(coords[n - 1]@[d])
    }
}

/// Greatest of the first `n` coordinates along axis `d`, taken in turn.
pub open spec fn greatest_coord<const D: usize>(coords: Seq<[Double; D]>, d: int, n: int) -> Double
    decreases n,
{
    if n <= 1 {
        coords[0]@[d]
    } else {
        greatest_coord(coords, d, n - 1).max(coords[n - 1]@[d])
    }
}

/// Axis-aligned bounding box of a non-empty list of finite points.
pub fn bbox_of<const D: usize>(coords: &Vec<[Double; D]>) -> (corners: ([Double; D], [Double; D]))
    requires
        coords.len() > 0,
        finite_points(coords@),
    ensures
        forall|d: int| 0 <= d < D ==> lowest(#[trigger] corners.0@[d], coords@, d),
        forall|d: int| 0 <= d < D ==> highest(#[trigger] corners.1@[d], coords@, d),
        forall|d: int|
            0 <= d < D ==> #[trigger] corners.0@[d] == least_coord(coords@, d, coords@.len() as int),
        forall|d: int|
            0 <= d < D ==> #[trigger] corners.1@[d] == greatest_coord(
                coords@,
                d,
                coords@.len() as int,
            ),
{
    let mut min: [Double; D] = coords[0];
    let mut max: [Double; D] = coords[0];
    proof {
        assert(finite_point(coords@[0]));
        assert forall|d: int| 0 <= d < D implies lowest(
            #[trigger] min@[d],
            coords@.take(1),
            d,
        ) && highest(max@[d], coords@.take(1), d) by {
            assert(coords@.take(1)[0]@[d] == min@[d]);
        }
    }
    for i in 1..coords.len()
        invariant
            coords.len() > 0,
            finite_points(coords@),
            forall|d: int| 0 <= d < D ==> lowest(#[trigger] min@[d], coords@.take(i as int), d),
            forall|d: int| 0 <= d < D ==> highest(#[trigger] max@[d], coords@.take(i as int), d),
            forall|d: int| 0 <= d < D ==> #[trigger] min@[d] == least_coord(coords@, d, i as int),
            forall|d: int| 0 <= d < D ==> #[trigger] max@[d] == greatest_coord(coords@, d, i as int),
    {
        let c: [Double; D] = coords[i];
        let ghost shorter = coords@.take(i as int);
        let ghost longer = coords@.take(i + 1);
        let ghost min0 = min;
        let ghost max0 = max;
        for d in 0..D
            invariant
                0 < i < coords.len(),
                c == coords@[i as int],
                finite_points(coords@),
                shorter == coords@.take(i as int),
                longer == coords@.take(i + 1),
                forall|e: int| 0 <= e < D ==> lowest(#[trigger] min0@[e], shorter, e),
                forall|e: int| 0 <= e < D ==> highest(#[trigger] max0@[e], shorter, e),
                forall|e: int| d <= e < D ==> min@[e] == #[trigger] min0@[e],
                forall|e: int| d <= e < D ==> max@[e] == #[trigger] max0@[e],
                forall|e: int| 0 <= e < d ==> lowest(#[trigger] min@[e], longer, e),
                forall|e: int| 0 <= e < d ==> highest(#[trigger] max@[e], longer, e),
                forall|e: int|
                    0 <= e < D ==> #[trigger] min0@[e] == least_coord(coords@, e, i as int),
                forall|e: int|
                    0 <= e < D ==> #[trigger] max0@[e] == greatest_coord(coords@, e, i as int),
                forall|e: int| 0 <= e < d ==> #[trigger] min@[e] == least_coord(coords@, e, i + 1),
                forall|e: int|
                    0 <= e < d ==> #[trigger] max@[e] == greatest_coord(coords@, e, i + 1),
        {
            let lo: Double = min[d].min(c[d]);
            let hi: Double = max[d].max(c[d]);
            proof {
                assert(finite_point(coords@[i as int]));
                assert(min0@[d as int] == min@[d as int]);
                assert(max0@[d as int] == max@[d as int]);
                assert(lowest(min0@[d as int], shorter, d as int));
                assert(highest(max0@[d as int], shorter, d as int));
                let wl = choose|j: int|
                    0 <= j < shorter.len() && (#[trigger] shorter[j])@[d as int] == min0@[d as int];
                let wh = choose|j: int|
                    0 <= j < shorter.len() && (#[trigger] shorter[j])@[d as int] == max0@[d as int];
                assert(longer[wl] == shorter[wl]);
                assert(longer[wh] == shorter[wh]);
                assert(longer[i as int]@[d as int] == c@[d as int]);
                assert forall|j: int| 0 <= j < longer.len() implies lo.at_most(
                    (#[trigger] longer[j])@[d as int],
                ) && longer[j]@[d as int].at_most(hi) by {
                    assert(finite_point(coords@[j]));
                    if j < i {
                        assert(longer[j] == shorter[j]);
                        assert(min0@[d as int].at_most(shorter[j]@[d as int]));
                        assert(shorter[j]@[d as int].at_most(max0@[d as int]));
                    }
                }
                assert(lowest(lo, longer, d as int));
                assert(highest(hi, longer, d as int));
            }
            min[d] = lo;
            max[d] = hi;
        }
    }
    assert(coords@.take(coords.len() as int) =~= coords@);
    (min, max)
}

impl<const D: usize> PointSet<D> {
    /// The coordinates.
    pub closed spec fn places(&self) -> Seq<[Double; D]> {
        self.coords@
    }

    /// The attribute values.
    pub closed spec fn attributes(&self) -> Seq<Double> {
        self.values@
    }

    /// One value per point, and everything finite.
    pub open spec fn well_formed(&self) -> bool {
        &&& self.places().len() == self.attributes().len()
        &&& finite_points(self.places())
        &&& finite_values(self.attributes())
    }

    /// Builds a point set from coordinates and values of equal length.
    ///
    /// All coordinates and values must be finite.
    pub fn new(coords: Vec<[Double; D]>, values: Vec<Double>) -> (r: Result<Self, GeostatError>)
        ensures
            r is Ok <==> coords.len() > 0 && coords.len() == values.len() && finite_points(coords@)
                && finite_values(values@),
            r matches Ok(p) ==> p.places() == coords@ && p.attributes() == values@
                && p.well_formed(),
            r matches Err(e) ==> if coords.len() == 0 {
                e matches GeostatError::InsufficientData(m) && m.says("no points provided"@)
            } else if coords.len() != values.len() {
                e matches GeostatError::DimensionMismatch(m) && m.says(
                    digits(coords@.len()) + " coordinates vs "@ + digits(values@.len())
                        + " values"@,
                )
            } else if !finite_points(coords@) {
                e matches GeostatError::InvalidParameter(m) && m.says("non-finite coordinate"@)
            } else {
                e matches GeostatError::InvalidParameter(m) && m.says("non-finite value"@)
            },
    {
        if coords.len() == 0 {
            return Err(GeostatError::InsufficientData(Message::plain("no points provided")));
        }
        if coords.len() != values.len() {
            return Err(
                GeostatError::DimensionMismatch(
                    Message::owned(
                        counts_text(coords.len(), " coordinates vs ", values.len(), " values"),
                    ),
                ),
            );
        }
        if !all_points_finite(&coords) {
            return Err(GeostatError::InvalidParameter(Message::plain("non-finite coordinate")));
        }
        if !all_values_finite(&values) {
            return Err(GeostatError::InvalidParameter(Message::plain("non-finite value")));
        }
        Ok(PointSet { coords, values })
    }

    /// Number of points.
    pub fn len(&self) -> (n: usize)
        ensures
            n == self.places().len(),
    {
        self.coords.len()
    }

    /// Whether the set is empty (never true for a set that [`PointSet::new`]
    /// returned).
    pub fn is_empty(&self) -> (b: bool)
        ensures
            b == (self.places().len() == 0),
    {
        self.coords.len() == 0
    }

    /// All coordinates.
    pub fn coords(&self) -> (c: &Vec<[Double; D]>)
        ensures
            c@ == self.places(),
    {
        &self.coords
    }

    /// All attribute values.
    pub fn values(&self) -> (v: &Vec<Double>)
        ensures
            v@ == self.attributes(),
    {
        &self.values
    }

    /// Coordinate of point `i`.
    pub fn coord(&self, i: usize) -> (c: [Double; D])
        requires
            i < self.places().len(),
        ensures
            c == self.places()[i as int],
    {
        self.coords[i]
    }

    /// Value of point `i`.
    pub fn value(&self, i: usize) -> (v: Double)
        requires
            i < self.attributes().len(),
        ensures
            v == self.attributes()[i as int],
    {
        self.values[i]
    }

    /// Mean attribute value.
    pub fn mean<F: Fn(Op, Double, Double) -> Double>(&self, ar: &Arithmetic<F>) -> (m: Double)
        requires
            self.attributes().len() < 2 * HIDDEN,
            ar.total(),
        ensures
            m == ar.average_of(self.attributes()),
    {
        ar.mean(&self.values)
    }

    /// Axis-aligned bounding box as `(min, max)` corners.
    pub fn bbox(&self) -> (corners: ([Double; D], [Double; D]))
        requires
            self.well_formed(),
            self.places().len() > 0,
        ensures
            forall|d: int| 0 <= d < D ==> lowest(#[trigger] corners.0@[d], self.places(), d),
            forall|d: int| 0 <= d < D ==> highest(#[trigger] corners.1@[d], self.places(), d),
    {
        bbox_of(&self.coords)
    }

    /// A copy of this point set with point `i` removed (for cross-validation).
    pub fn excluding(&self, i: usize) -> (p: Self)
        requires
            self.well_formed(),
            i < self.places().len(),
        ensures
            p.well_formed(),
            p.places() == self.places().remove(i as int),
            p.attributes() == self.attributes().remove(i as int),
    {
        let mut coords: Vec<[Double; D]> = Vec::new();
        let mut values: Vec<Double> = Vec::new();
        for j in 0..self.coords.len()
            invariant
                self.well_formed(),
                i < self.coords.len(),
                coords@ =~= (if j <= i {
                    self.coords@.take(j as int)
                } else {
                    self.coords@.take(j as int).remove(i as int)
                }),
                values@ =~= (if j <= i {
                    self.values@.take(j as int)
                } else {
                    self.values@.take(j as int).remove(i as int)
                }),
        {
            if j != i {
                coords.push(self.coords[j]);
                values.push(self.values[j]);
            }
        }
        assert(coords@ =~= self.coords@.remove(i as int));
        assert(values@ =~= self.values@.remove(i as int));
        let p = PointSet { coords, values };
        assert forall|k: int| 0 <= k < p.places().len() implies finite_point(
            #[trigger] p.places()[k],
        ) by {
            let src = if k < i { k } else { k + 1 };
            assert(p.places()[k] == self.places()[src]);
            assert(finite_point(self.places()[src]));
        }
        assert forall|k: int| 0 <= k < p.attributes().len() implies (
        #[trigger] p.attributes()[k]).finite() by {
            let src = if k < i { k } else { k + 1 };
            assert(p.attributes()[k] == self.attributes()[src]);
            assert(self.attributes()[src].finite());
        }
        p
    }

    /// The first pair of points that share their coordinates: smallest first
    /// index, then smallest second.
    pub fn duplicate_pair(&self) -> (r: Option<(usize, usize)>)
        ensures
            r is None <==> !has_duplicate(self.places()),
            r matches Some((i, j)) ==> first_duplicate(self.places(), i as int, j as int),
    {
        for i in 0..self.coords.len()
            invariant
                forall|a: int, b: int|
                    0 <= a < i && a < b < self.coords.len() ==> !same_place(
                        #[trigger] self.coords@[a],
                        #[trigger] self.coords@[b],
                    ),
        {
            for j in i + 1..self.coords.len()
                invariant
                    i < self.coords.len(),
                    forall|a: int, b: int|
                        0 <= a < i && a < b < self.coords.len() ==> !same_place(
                            #[trigger] self.coords@[a],
                            #[trigger] self.coords@[b],
                        ),
                    forall|b: int|
                        i < b < j ==> !same_place(self.coords@[i as int], #[trigger] self.coords@[b]),
            {
                if is_same_place(&self.coords[i], &self.coords[j]) {
                    assert(same_place(self.places()[i as int], self.places()[j as int]));
                    return Some((i, j));
                }
            }
        }
        None
    }
}

/// Euclidean distance of two points.
pub fn dist<const D: usize, F: Fn(Op, Double, Double) -> Double>(
    a: [Double; D],
    b: [Double; D],
    ar: &Arithmetic<F>,
) -> (r: Double)
    requires
        ar.total(),
    ensures
        r == ar.sqrt(ar.distance2(a, b)),
{
    ar.sqrt(ar.dist2(&a, &b))
}

/// Two of the points share their coordinates.
pub open spec fn has_duplicate<const D: usize>(coords: Seq<[Double; D]>) -> bool {
    exists|i: int, j: int|
        0 <= i < j < coords.len() && same_place(#[trigger] coords[i], #[trigger] coords[j])
}

/// `(i, j)` is the first pair that shares its coordinates.
pub open spec fn first_duplicate<const D: usize>(
    coords: Seq<[Double; D]>,
    i: int,
    j: int,
) -> bool {
    &&& 0 <= i < j < coords.len()
    &&& same_place(coords[i], coords[j])
    &&& forall|a: int, b: int|
        0 <= a < i && a < b < coords.len() ==> !same_place(
            #[trigger] coords[a],
            #[trigger] coords[b],
        )
    &&& forall|b: int| i < b < j ==> !same_place(coords[i], #[trigger] coords[b])
}

impl PointSet<2> {
    /// Builds a 2-D point set from separate x, y and value lists.
    pub fn from_xyz(x: &Vec<Double>, y: &Vec<Double>, z: &Vec<Double>) -> (r: Result<
        Self,
        GeostatError,
    >)
        ensures
            r is Ok <==> x.len() > 0 && x.len() == y.len() && x.len() == z.len() && finite_values(
                x@,
            ) && finite_values(y@) && finite_values(z@),
            r matches Ok(p) ==> p.well_formed() && p.attributes() == z@ && p.places().len()
                == x.len() && forall|i: int|
                0 <= i < x.len() ==> (#[trigger] p.places()[i])@ == seq![x@[i], y@[i]],
            r matches Err(e) ==> if x.len() != y.len() || x.len() != z.len() {
                e matches GeostatError::DimensionMismatch(m) && m.says(
                    "x: "@ + digits(x@.len()) + ", y: "@ + digits(y@.len()) + ", z: "@ + digits(
                        z@.len(),
                    ),
                )
            } else if x.len() == 0 {
                e matches GeostatError::InsufficientData(m) && m.says("no points provided"@)
            } else if !finite_values(x@) || !finite_values(y@) {
                e matches GeostatError::InvalidParameter(m) && m.says("non-finite coordinate"@)
            } else {
                e matches GeostatError::InvalidParameter(m) && m.says("non-finite value"@)
            },
    {
        if x.len() != y.len() || x.len() != z.len() {
            let nx: String = decimal(x.len());
            let ny: String = decimal(y.len());
            let nz: String = decimal(z.len());
            let head: String = concat4("x: ", nx.as_str(), ", y: ", ny.as_str());
            let text: String = crate::text::concat3(head.as_str(), ", z: ", nz.as_str());
            return Err(GeostatError::DimensionMismatch(Message::owned(text)));
        }
        let mut coords: Vec<[Double; 2]> = Vec::new();
        let mut values: Vec<Double> = Vec::new();
        for i in 0..x.len()
            invariant
                x.len() == y.len(),
                x.len() == z.len(),
                coords.len() == i,
                forall|j: int| 0 <= j < i ==> (#[trigger] coords@[j])@ == seq![x@[j], y@[j]],
                values@ =~= z@.take(i as int),
        {
            let c: [Double; 2] = [x[i], y[i]];
            assert(c@ =~= seq![x@[i as int], y@[i as int]]);
            coords.push(c);
            values.push(z[i]);
        }
        assert(values@ =~= z@);
        proof {
            if finite_points(coords@) {
                assert forall|i: int| 0 <= i < x.len() implies (#[trigger] x@[i]).finite() by {
                    assert(finite_point(coords@[i]));
                    assert(coords@[i]@[0].finite());
                }
                assert forall|i: int| 0 <= i < y.len() implies (#[trigger] y@[i]).finite() by {
                    assert(finite_point(coords@[i]));
                    assert(coords@[i]@[1].finite());
                }
            }
            if finite_values(x@) && finite_values(y@) {
                assert forall|i: int| 0 <= i < coords.len() implies finite_point(
                    #[trigger] coords@[i],
                ) by {
                    assert(x@[i].finite());
                    assert(y@[i].finite());
                }
            }
        }
        PointSet::new(coords, values)
    }
}

impl PointSet<3> {
    /// Builds a 3-D point set from separate x, y, z and value lists.
    pub fn from_xyzv(
        x: &Vec<Double>,
        y: &Vec<Double>,
        z: &Vec<Double>,
        values: &Vec<Double>,
    ) -> (r: Result<Self, GeostatError>)
        ensures
            r is Ok <==> x.len() > 0 && x.len() == y.len() && x.len() == z.len() && x.len()
                == values.len() && finite_values(x@) && finite_values(y@) && finite_values(z@)
                && finite_values(values@),
            r matches Ok(p) ==> p.well_formed() && p.attributes() == values@ && p.places().len()
                == x.len() && forall|i: int|
                0 <= i < x.len() ==> (#[trigger] p.places()[i])@ == seq![x@[i], y@[i], z@[i]],
            r matches Err(e) ==> if x.len() != y.len() || x.len() != z.len() || x.len()
                != values.len() {
                e matches GeostatError::DimensionMismatch(m) && m.says(
                    "x: "@ + digits(x@.len()) + ", y: "@ + digits(y@.len()) + ", z: "@ + digits(
                        z@.len(),
                    ) + ", values: "@ + digits(values@.len()),
                )
            } else if x.len() == 0 {
                e matches GeostatError::InsufficientData(m) && m.says("no points provided"@)
            } else if !finite_values(x@) || !finite_values(y@) || !finite_values(z@) {
                e matches GeostatError::InvalidParameter(m) && m.says("non-finite coordinate"@)
            } else {
                e matches GeostatError::InvalidParameter(m) && m.says("non-finite value"@)
            },
    {
        if x.len() != y.len() || x.len() != z.len() || x.len() != values.len() {
            let nx: String = decimal(x.len());
            let ny: String = decimal(y.len());
            let nz: String = decimal(z.len());
            let nv: String = decimal(values.len());
            let head: String = concat4("x: ", nx.as_str(), ", y: ", ny.as_str());
            let mid: String = crate::text::concat3(head.as_str(), ", z: ", nz.as_str());
            let text: String = crate::text::concat3(mid.as_str(), ", values: ", nv.as_str());
            return Err(GeostatError::DimensionMismatch(Message::owned(text)));
        }
        let mut coords: Vec<[Double; 3]> = Vec::new();
        let mut kept: Vec<Double> = Vec::new();
        for i in 0..x.len()
            invariant
                x.len() == y.len(),
                x.len() == z.len(),
                x.len() == values.len(),
                coords.len() == i,
                forall|j: int|
                    0 <= j < i ==> (#[trigger] coords@[j])@ == seq![x@[j], y@[j], z@[j]],
                kept@ =~= values@.take(i as int),
        {
            let c: [Double; 3] = [x[i], y[i], z[i]];
            assert(c@ =~= seq![x@[i as int], y@[i as int], z@[i as int]]);
            coords.push(c);
            kept.push(values[i]);
        }
        assert(kept@ =~= values@);
        proof {
            if finite_points(coords@) {
                assert forall|i: int| 0 <= i < x.len() implies (#[trigger] x@[i]).finite()
                    && y@[i].finite() && z@[i].finite() by {
                    assert(finite_point(coords@[i]));
                    assert(coords@[i]@[0].finite());
                    assert(coords@[i]@[1].finite());
                    assert(coords@[i]@[2].finite());
                }
                assert forall|i: int| 0 <= i < y.len() implies (#[trigger] y@[i]).finite() by {
                    assert(x@[i].finite());
                }
                assert forall|i: int| 0 <= i < z.len() implies (#[trigger] z@[i]).finite() by {
                    assert(x@[i].finite());
                }
            }
            if finite_values(x@) && finite_values(y@) && finite_values(z@) {
                assert forall|i: int| 0 <= i < coords.len() implies finite_point(
                    #[trigger] coords@[i],
                ) by {
                    assert(x@[i].finite());
                    assert(y@[i].finite());
                    assert(z@[i].finite());
                }
            }
        }
        PointSet::new(coords, kept)
    }
}

} // verus!

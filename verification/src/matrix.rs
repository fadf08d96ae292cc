//! Dense matrices of doubles, in the storage of the `ndarray` crate.

use vstd::prelude::*;

use crate::double::Double;

verus! {

/// A dense matrix.
#[verifier::external_body]
#[derive(Debug)]
pub struct Matrix {
    cells: ndarray::Array2<Double>,
}

/// The rows of a matrix.
pub uninterp spec fn rows_of(m: Matrix) -> Seq<Seq<Double>>;

/// The number of columns of a matrix.
pub uninterp spec fn width_of(m: Matrix) -> nat;

/// Length of an axis, an empty one counted as one: the strides of an array are
/// computed from these.
pub open spec fn reach(n: nat) -> nat {
    if n == 0 {
        1
    } else {
        n
    }
}

/// A matrix of this shape can be held in memory, and the strides of its axes
/// can be counted.
pub open spec fn holdable(rows: nat, cols: nat) -> bool {
    reach(rows) * reach(cols) * 8 <= isize::MAX
}

impl Matrix {
    /// The rows.
    pub open spec fn rows(&self) -> Seq<Seq<Double>> {
        rows_of(*self)
    }

    /// Entry in row `i`, column `j`.
    pub open spec fn entry(&self, i: int, j: int) -> Double {
        rows_of(*self)[i][j]
    }

    /// All rows have as many entries as there are columns.
    pub open spec fn well_formed(&self) -> bool {
        &&& rows_of(*self).len() <= usize::MAX
        &&& width_of(*self) <= usize::MAX
        &&& forall|i: int|
            0 <= i < rows_of(*self).len() ==> (#[trigger] rows_of(*self)[i]).len() == width_of(
                *self,
            )
    }

    /// The matrix is square, of this order.
    pub open spec fn square(&self, n: nat) -> bool {
        self.well_formed() && rows_of(*self).len() == n && width_of(*self) == n
    }

    /// `ndarray::Array2::from_elem`: a matrix of `rows` rows and `cols`
    /// columns whose entries are all `value`. The product of the lengths of the
    /// axes, empty ones left out, is small enough for the array to be made.
    #[verifier::external_body]
    pub(crate) fn filled(rows: usize, cols: usize, value: Double) -> (m: Matrix)
        requires
            holdable(rows as nat, cols as nat),
        ensures
            m.well_formed(),
            width_of(m) == cols,
            rows_of(m) == Seq::new(rows as nat, |i: int| Seq::new(cols as nat, |j: int| value)),
    {
        Matrix { cells: ndarray::Array2::from_elem((rows, cols), value) }
    }

    /// `ndarray::ArrayBase::nrows`: the number of rows.
    #[verifier::external_body]
    pub(crate) fn height(&self) -> (r: usize)
        ensures
            r == rows_of(*self).len(),
    {
        self.cells.nrows()
    }

    /// `ndarray::ArrayBase::ncols`: the number of columns.
    #[verifier::external_body]
    pub(crate) fn width(&self) -> (r: usize)
        ensures
            r == width_of(*self),
    {
        self.cells.ncols()
    }

    /// Indexing of an `ndarray::Array2`: the entry in row `i`, column `j`.
    #[verifier::external_body]
    pub(crate) fn at(&self, i: usize, j: usize) -> (r: Double)
        requires
            i < rows_of(*self).len(),
            j < width_of(*self),
        ensures
            r == rows_of(*self)[i as int][j as int],
    {
        self.cells[[i, j]]
    }

    /// Mutable indexing of an `ndarray::Array2`: puts `value` into row `i`,
    /// column `j` and changes nothing else.
    #[verifier::external_body]
    pub(crate) fn put(&mut self, i: usize, j: usize, value: Double)
        requires
            i < rows_of(*old(self)).len(),
            j < width_of(*old(self)),
        ensures
            rows_of(*final(self)) == rows_of(*old(self)).update(
                i as int,
                rows_of(*old(self))[i as int].update(j as int, value),
            ),
            width_of(*final(self)) == width_of(*old(self)),
    {
        self.cells[[i, j]] = value;
    }

    /// `ndarray::ArrayBase::swap`, within column `j`: exchanges the entries of
    /// rows `i` and `k` and changes nothing else.
    #[verifier::external_body]
    pub(crate) fn exchange(&mut self, i: usize, k: usize, j: usize)
        requires
            i < rows_of(*old(self)).len(),
            k < rows_of(*old(self)).len(),
            i != k,
            j < width_of(*old(self)),
        ensures
            rows_of(*final(self)) == rows_of(*old(self)).update(
                i as int,
                rows_of(*old(self))[i as int].update(
                    j as int,
                    rows_of(*old(self))[k as int][j as int],
                ),
            ).update(
                k as int,
                rows_of(*old(self))[k as int].update(
                    j as int,
                    rows_of(*old(self))[i as int][j as int],
                ),
            ),
            width_of(*final(self)) == width_of(*old(self)),
    {
        self.cells.swap([i, j], [k, j]);
    }

    /// A matrix with these rows, `cols` entries each.
    pub fn from_rows(rows: &Vec<Vec<Double>>, cols: usize) -> (m: Matrix)
        requires
            holdable(rows.len() as nat, cols as nat),
            forall|i: int| 0 <= i < rows.len() ==> (#[trigger] rows@[i]).len() == cols,
        ensures
            m.well_formed(),
            width_of(m) == cols,
            m.rows() == rows@.map_values(|row: Vec<Double>| row@),
    {
        let mut m: Matrix = Matrix::filled(rows.len(), cols, Double::zero());
        let n: usize = rows.len();
        for i in 0..n
            invariant
                n == rows.len(),
                m.well_formed(),
                width_of(m) == cols,
                m.rows().len() == n,
                forall|r: int| 0 <= r < n ==> (#[trigger] rows@[r]).len() == cols,
                forall|r: int| 0 <= r < i ==> #[trigger] m.rows()[r] == rows@[r]@,
        {
            for j in 0..cols
                invariant
                    i < n,
                    n == rows.len(),
                    m.well_formed(),
                    width_of(m) == cols,
                    m.rows().len() == n,
                    forall|r: int| 0 <= r < n ==> (#[trigger] rows@[r]).len() == cols,
                    forall|r: int| 0 <= r < i ==> #[trigger] m.rows()[r] == rows@[r]@,
                    forall|c: int| 0 <= c < j ==> #[trigger] m.rows()[i as int][c] == rows@[i as int]@[c],
            {
                m.put(i, j, rows[i][j]);
            }
            assert(m.rows()[i as int] =~= rows@[i as int]@);
        }
        assert(m.rows() =~= rows@.map_values(|row: Vec<Double>| row@));
        m
    }
}

} // verus!

//! The `ndarray` containers that the models keep: one-dimensional arrays of
//! sample indices or class labels, and two-dimensional arrays of feature keys.
//!
//! Verus cannot declare `ndarray::ArrayBase` (its bound `RawData` is an outside
//! trait), so each array is held in a private field of a struct of this crate.
//! What the arrays hold is named by `index_array_view`, `key_matrix_rows` and
//! `key_matrix_ncols`; the wrappers below state, over those names, what each
//! `ndarray` call does.
use vstd::prelude::*;
use ndarray::{Array1, Array2, Axis};

verus! {

/// A one-dimensional `ndarray` array of `usize` (sample indices or class labels).
#[verifier::external_body]
pub struct IndexArray {
    inner: Array1<usize>,
}

/// What an `IndexArray` holds, in order.
pub uninterp spec fn index_array_view(a: IndexArray) -> Seq<usize>;

impl View for IndexArray {
    type V = Seq<usize>;

    open spec fn view(&self) -> Seq<usize> {
        index_array_view(*self)
    }
}

impl IndexArray {
    /// `Array1::from(Vec)`: the array holds the vector's items in order.
    #[verifier::external_body]
    fn from_vec(v: Vec<usize>) -> (r: IndexArray)
        ensures
            index_array_view(r) == v@,
    {
        IndexArray { inner: Array1::from(v) }
    }

    /// `Array1::len`: the number of items.
    #[verifier::external_body]
    pub(crate) fn len(&self) -> (r: usize)
        ensures
            r == index_array_view(*self).len(),
    {
        self.inner.len()
    }

    /// `Array1` indexing by one position; it panics out of bounds, hence the `requires`.
    #[verifier::external_body]
    pub(crate) fn get(&self, i: usize) -> (r: usize)
        requires
            i < self@.len(),
        ensures
            r == index_array_view(*self)[i as int],
    {
        self.inner[i]
    }

    /// `Array1::clone`: a new array with the same items.
    #[verifier::external_body]
    pub(crate) fn duplicate(&self) -> (r: IndexArray)
        ensures
            index_array_view(r) == index_array_view(*self),
    {
        IndexArray { inner: self.inner.clone() }
    }

    /// `select(Axis(0), indices)` on a one-dimensional array: the items at the
    /// given positions, in the given order. It panics on a position out of
    /// bounds, hence the `requires`.
    #[verifier::external_body]
    pub(crate) fn select(&self, positions: &Vec<usize>) -> (r: IndexArray)
        requires
            forall|k: int| 0 <= k < positions@.len() ==> positions@[k] < self@.len(),
        ensures
            index_array_view(r).len() == positions@.len(),
            forall|k: int|
                0 <= k < positions@.len() ==> #[trigger] index_array_view(r)[k] == index_array_view(
                    *self,
                )[positions@[k] as int],
    {
        IndexArray { inner: self.inner.select(Axis(0), positions.as_slice()) }
    }

    /// Makes an array that holds the given items in order.
    pub fn new(v: Vec<usize>) -> (r: IndexArray)
        ensures
            r@ == v@,
    {
        IndexArray::from_vec(v)
    }

    /// The items of the array, in order, as a vector.
    pub fn to_vec(&self) -> (r: Vec<usize>)
        ensures
            r@ == self@,
    {
        let n = self.len();
        let mut out: Vec<usize> = Vec::new();
        let mut i: usize = 0;
        while i < n
            invariant
                n == self@.len(),
                i <= n,
                out@ == self@.take(i as int),
            decreases n - i,
        {
            let v = self.get(i);
            out.push(v);
            i = i + 1;
            assert(out@ =~= self@.take(i as int));
        }
        assert(self@.take(n as int) =~= self@);
        out
    }
}

/// A two-dimensional `ndarray` array of feature keys: one row per sample, one
/// column per feature. A key stands for a feature value; keys are ordered as
/// the values they stand for.
#[verifier::external_body]
pub struct KeyMatrix {
    inner: Array2<u64>,
}

/// The rows of a `KeyMatrix`, in order.
pub uninterp spec fn key_matrix_rows(m: KeyMatrix) -> Seq<Seq<u64>>;

/// The number of columns a `KeyMatrix` was made with (it matters when there are no rows).
pub uninterp spec fn key_matrix_ncols(m: KeyMatrix) -> nat;

/// The product of the axis lengths that are not zero, as `ndarray` bounds it.
pub open spec fn nonzero_size(nrows: nat, ncols: nat) -> nat {
    (if nrows == 0 { 1nat } else { nrows }) * (if ncols == 0 { 1nat } else { ncols })
}

impl KeyMatrix {
    pub open spec fn rows(self) -> Seq<Seq<u64>> {
        key_matrix_rows(self)
    }

    pub open spec fn num_rows(self) -> nat {
        key_matrix_rows(self).len()
    }

    pub open spec fn num_cols(self) -> nat {
        key_matrix_ncols(self)
    }

    /// The key of feature `c` of sample `r`.
    pub open spec fn key(self, r: int, c: int) -> u64 {
        key_matrix_rows(self)[r][c]
    }

    /// Every row has one key per column.
    pub open spec fn is_rectangular(self) -> bool {
        forall|i: int| 0 <= i < self.num_rows() ==> #[trigger] self.rows()[i].len() == self.num_cols()
    }

    /// `Array2::from_shape_vec((nrows, ncols), values)`: row-major. It fails
    /// unless the shape holds exactly the values and its non-zero axis lengths
    /// multiply to at most `isize::MAX`.
    #[verifier::external_body]
    fn from_shape_vec(nrows: usize, ncols: usize, values: Vec<u64>) -> (r: Option<KeyMatrix>)
        ensures
            r is Some <==> (values@.len() == nrows * ncols && nonzero_size(nrows as nat, ncols as nat)
                <= isize::MAX),
            r matches Some(m) ==> {
                &&& key_matrix_rows(m).len() == nrows
                &&& key_matrix_ncols(m) == ncols
                &&& forall|i: int| 0 <= i < nrows ==> #[trigger] key_matrix_rows(m)[i].len() == ncols
                &&& forall|i: int, j: int|
                    0 <= i < nrows && 0 <= j < ncols ==> #[trigger] key_matrix_rows(m)[i][j]
                        == values@[i * ncols + j]
            },
    {
        match Array2::from_shape_vec((nrows, ncols), values) {
            Ok(a) => Some(KeyMatrix { inner: a }),
            Err(_) => None,
        }
    }

    /// `Array2::nrows`: the number of rows.
    #[verifier::external_body]
    pub(crate) fn nrows(&self) -> (r: usize)
        ensures
            r == key_matrix_rows(*self).len(),
    {
        self.inner.nrows()
    }

    /// `Array2::ncols`: the number of columns, which every row has.
    #[verifier::external_body]
    pub(crate) fn ncols(&self) -> (r: usize)
        ensures
            r == key_matrix_ncols(*self),
            forall|i: int|
                0 <= i < key_matrix_rows(*self).len() ==> #[trigger] key_matrix_rows(*self)[i].len() == r,
    {
        self.inner.ncols()
    }

    /// `Array2` indexing by `[row, column]`; it panics out of bounds, hence the `requires`.
    #[verifier::external_body]
    pub(crate) fn get(&self, r: usize, c: usize) -> (k: u64)
        requires
            r < self.num_rows(),
            c < self.num_cols(),
        ensures
            k == key_matrix_rows(*self)[r as int][c as int],
    {
        self.inner[[r, c]]
    }

    /// `Array2::clone`: a new array with the same rows and columns.
    #[verifier::external_body]
    pub(crate) fn duplicate(&self) -> (m: KeyMatrix)
        ensures
            key_matrix_rows(m) == key_matrix_rows(*self),
            key_matrix_ncols(m) == key_matrix_ncols(*self),
    {
        KeyMatrix { inner: self.inner.clone() }
    }

    /// `select(Axis(0), rows)`: the rows at the given positions, in the given
    /// order. It panics on a position out of bounds, when the new shape
    /// overflows `isize` and when its keys (8 bytes each) take more than
    /// `isize::MAX` bytes, hence the `requires`.
    #[verifier::external_body]
    pub(crate) fn select_rows(&self, positions: &Vec<usize>) -> (m: KeyMatrix)
        requires
            forall|k: int| 0 <= k < positions@.len() ==> positions@[k] < self.num_rows(),
            nonzero_size(positions@.len(), self.num_cols()) <= isize::MAX,
            positions@.len() * self.num_cols() * 8 <= isize::MAX,
        ensures
            key_matrix_rows(m).len() == positions@.len(),
            key_matrix_ncols(m) == key_matrix_ncols(*self),
            forall|k: int|
                0 <= k < positions@.len() ==> #[trigger] key_matrix_rows(m)[k] == key_matrix_rows(
                    *self,
                )[positions@[k] as int],
    {
        KeyMatrix { inner: self.inner.select(Axis(0), positions.as_slice()) }
    }

    /// Makes a matrix of `nrows` rows and `ncols` columns from keys in
    /// row-major order, or `None` when the shape does not fit the keys.
    pub fn new(nrows: usize, ncols: usize, values: Vec<u64>) -> (r: Option<KeyMatrix>)
        ensures
            r is Some <==> (values@.len() == nrows * ncols && nonzero_size(nrows as nat, ncols as nat)
                <= isize::MAX),
            r matches Some(m) ==> {
                &&& m.num_rows() == nrows
                &&& m.num_cols() == ncols
                &&& m.is_rectangular()
                &&& forall|i: int, j: int|
                    0 <= i < nrows && 0 <= j < ncols ==> #[trigger] m.key(i, j) == values@[i * ncols + j]
            },
    {
        KeyMatrix::from_shape_vec(nrows, ncols, values)
    }
}

} // verus!

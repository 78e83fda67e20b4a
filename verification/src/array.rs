use vstd::prelude::*;

verus! {

/// A two-dimensional array of unsigned numbers, stored by `ndarray`.
#[verifier::external_body]
pub struct Matrix {
    cells: ndarray::Array2<u64>,
}

/// A one-dimensional array of unsigned numbers, stored by `ndarray`.
#[verifier::external_body]
pub struct Vector {
    cells: ndarray::Array1<u64>,
}

#[verifier::external_type_specification]
#[verifier::external_body]
pub struct ExShapeError(ndarray::ShapeError);

/// The rows of a matrix, each row holding one cell per column.
pub uninterp spec fn matrix_rows(m: Matrix) -> Seq<Seq<u64>>;

/// The number of columns of a matrix, which a matrix has also where it has
/// no rows.
pub uninterp spec fn matrix_width(m: Matrix) -> nat;

/// The items of a vector, in order.
pub uninterp spec fn vector_items(v: Vector) -> Seq<u64>;

impl View for Matrix {
    type V = Seq<Seq<u64>>;

    open spec fn view(&self) -> Seq<Seq<u64>> {
        matrix_rows(*self)
    }
}

impl Matrix {
    /// The number of columns.
    pub open spec fn width(&self) -> nat {
        matrix_width(*self)
    }
}

impl View for Vector {
    type V = Seq<u64>;

    open spec fn view(&self) -> Seq<u64> {
        vector_items(*self)
    }
}

/// Every row of `rows` has `width` cells.
pub open spec fn rectangular(rows: Seq<Seq<u64>>, width: nat) -> bool {
    forall|r: int| 0 <= r < rows.len() ==> (#[trigger] rows[r]).len() == width
}

/// `height` rows of `width` zeros.
pub open spec fn zero_rows(height: nat, width: nat) -> Seq<Seq<u64>> {
    Seq::new(height, |r: int| Seq::new(width, |c: int| 0u64))
}

/// The sum of the cells of column `c`.
pub open spec fn column_total(rows: Seq<Seq<u64>>, c: int) -> int
    decreases rows.len(),
{
    if rows.len() == 0 {
        0
    } else {
        column_total(rows.drop_last(), c) + rows.last()[c]
    }
}

/// The sum of the items.
pub open spec fn total(items: Seq<u64>) -> int
    decreases items.len(),
{
    if items.len() == 0 {
        0
    } else {
        total(items.drop_last()) + items.last()
    }
}

/// Columns `left..=right` of every row.
pub open spec fn columns_of(rows: Seq<Seq<u64>>, left: int, right: int) -> Seq<Seq<u64>> {
    Seq::new(rows.len(), |r: int| rows[r].subrange(left, right + 1))
}

/// Every row extended by the item of `column` at its index.
pub open spec fn with_column(rows: Seq<Seq<u64>>, column: Seq<u64>) -> Seq<Seq<u64>> {
    Seq::new(rows.len(), |r: int| rows[r].push(column[r]))
}

/// The length of the first row, and 0 where there is no row.
pub open spec fn row_length(rows: Seq<Vec<u64>>) -> nat {
    if rows.len() == 0 {
        0
    } else {
        rows[0]@.len()
    }
}

/// The views of the rows of a nested vector.
pub open spec fn rows_view(rows: Seq<Vec<u64>>) -> Seq<Seq<u64>> {
    Seq::new(rows.len(), |r: int| rows[r]@)
}

impl Matrix {
    /// `ndarray::Array2::zeros`: a matrix of the given shape filled with
    /// zeros. The call panics when the product of the axis lengths that
    /// are not zero exceeds `isize::MAX`, or when the bytes of the cells
    /// do; the precondition rules both out.
    #[verifier::external_body]
    pub(crate) fn zeros(height: usize, width: usize) -> (m: Matrix)
        requires
            height <= isize::MAX,
            width <= isize::MAX,
            height * width * 8 <= isize::MAX,
        ensures
            matrix_rows(m) == zero_rows(height as nat, width as nat),
            matrix_width(m) == width,
    {
        Matrix { cells: ndarray::Array2::<u64>::zeros((height, width)) }
    }

    /// `Clone::clone` of an `ndarray` array: a matrix with the same cells.
    #[verifier::external_body]
    pub(crate) fn duplicate(&self) -> (m: Matrix)
        ensures
            matrix_rows(m) == matrix_rows(*self),
            matrix_width(m) == matrix_width(*self),
    {
        Matrix { cells: self.cells.clone() }
    }

    /// `ndarray::ArrayBase::nrows`: the number of rows.
    #[verifier::external_body]
    pub(crate) fn nrows(&self) -> (n: usize)
        ensures
            n == matrix_rows(*self).len(),
    {
        self.cells.nrows()
    }

    /// `ndarray::ArrayBase::ncols`: the number of columns, which is the
    /// length of every row.
    #[verifier::external_body]
    pub(crate) fn ncols(&self) -> (n: usize)
        ensures
            n == matrix_width(*self),
            rectangular(matrix_rows(*self), n as nat),
    {
        self.cells.ncols()
    }

    /// Indexing an `ndarray` array by `[row, column]`: the cell there.
    /// Out of bounds it panics.
    #[verifier::external_body]
    pub(crate) fn at(&self, r: usize, c: usize) -> (v: u64)
        requires
            r < matrix_rows(*self).len(),
            c < matrix_rows(*self)[r as int].len(),
        ensures
            v == matrix_rows(*self)[r as int][c as int],
    {
        self.cells[[r, c]]
    }

    /// Assigning through the `[row, column]` index of an `ndarray` array:
    /// that cell changes and no other. Out of bounds it panics.
    #[verifier::external_body]
    pub(crate) fn put(&mut self, r: usize, c: usize, v: u64)
        requires
            r < matrix_rows(*old(self)).len(),
            c < matrix_rows(*old(self))[r as int].len(),
        ensures
            matrix_rows(*final(self)) == matrix_rows(*old(self)).update(
                r as int,
                matrix_rows(*old(self))[r as int].update(c as int, v),
            ),
            matrix_width(*final(self)) == matrix_width(*old(self)),
    {
        self.cells[[r, c]] = v;
    }

    /// `ndarray::ArrayBase::column` followed by `sum`: the sum of one
    /// column. `column` panics out of bounds; `sum` adds with `+`, which
    /// panics on overflow in a debug build.
    #[verifier::external_body]
    pub(crate) fn column_sum(&self, c: usize) -> (s: u64)
        requires
            c < matrix_width(*self),
            column_total(matrix_rows(*self), c as int) <= u64::MAX,
        ensures
            s == column_total(matrix_rows(*self), c as int),
    {
        self.cells.column(c).sum()
    }

    /// `ndarray::ArrayBase::slice_axis` along the column axis, copied by
    /// `to_owned`: the columns `left..=right` of every row. The slice
    /// panics when the range leaves the matrix.
    #[verifier::external_body]
    pub(crate) fn columns_between(&self, left: usize, right: usize) -> (m: Matrix)
        requires
            left <= right < matrix_width(*self),
        ensures
            matrix_rows(m) == columns_of(matrix_rows(*self), left as int, right as int),
            matrix_width(m) == right - left + 1,
    {
        Matrix {
            cells: self.cells.slice_axis(ndarray::Axis(1), ndarray::Slice::from(left..=right)).to_owned(),
        }
    }

    /// `ndarray::Array2::push_column`: appends one cell to every row. It
    /// fails when the column's length is not the number of rows, or when
    /// the product of the grown axis lengths that are not zero exceeds
    /// `isize::MAX`, and it panics when the bytes of the grown matrix do;
    /// the precondition rules out all three.
    #[verifier::external_body]
    pub(crate) fn push_column(&mut self, column: &Vec<u64>) -> (r: Result<(), ndarray::ShapeError>)
        requires
            column@.len() == matrix_rows(*old(self)).len(),
            matrix_width(*old(self)) < isize::MAX,
            matrix_rows(*old(self)).len() * (matrix_width(*old(self)) + 1) * 8 <= isize::MAX,
        ensures
            r is Ok,
            matrix_rows(*final(self)) == with_column(matrix_rows(*old(self)), column@),
            matrix_width(*final(self)) == matrix_width(*old(self)) + 1,
    {
        self.cells.push_column(ndarray::ArrayView::from(column.as_slice()))
    }

    /// `ndarray::Array2::push_row`: appends one row. It fails when the
    /// row's length is not the number of columns, or when the product of
    /// the grown axis lengths that are not zero exceeds `isize::MAX`, and
    /// it panics when the bytes of the grown matrix do; the precondition
    /// rules out all three.
    #[verifier::external_body]
    pub(crate) fn push_row(&mut self, row: &Vec<u64>) -> (r: Result<(), ndarray::ShapeError>)
        requires
            row@.len() == matrix_width(*old(self)),
            matrix_rows(*old(self)).len() < isize::MAX,
            (matrix_rows(*old(self)).len() + 1) * row@.len() * 8 <= isize::MAX,
        ensures
            r is Ok,
            matrix_rows(*final(self)) == matrix_rows(*old(self)).push(row@),
            matrix_width(*final(self)) == matrix_width(*old(self)),
    {
        self.cells.push_row(ndarray::ArrayView::from(row.as_slice()))
    }

    /// The number of rows and the number of columns.
    pub fn shape(&self) -> (hw: (usize, usize))
        ensures
            hw.0 == self@.len(),
            hw.1 == self.width(),
            rectangular(self@, self.width()),
    {
        (self.nrows(), self.ncols())
    }

    /// The cell at row `r` and column `c`, if there is one.
    pub fn get(&self, r: usize, c: usize) -> (cell: Option<u64>)
        ensures
            cell == if r < self@.len() && c < self@[r as int].len() {
                Some(self@[r as int][c as int])
            } else {
                None
            },
    {
        let height = self.nrows();
        let width = self.ncols();
        if r < height && c < width {
            Some(self.at(r, c))
        } else {
            None
        }
    }

    /// The rows as vectors.
    pub fn to_rows(&self) -> (rows: Vec<Vec<u64>>)
        ensures
            rows_view(rows@) == self@,
    {
        let height = self.nrows();
        let width = self.ncols();
        let mut rows: Vec<Vec<u64>> = Vec::new();
        let mut r: usize = 0;
        while r < height
            invariant
                r <= height == self@.len(),
                rectangular(self@, width as nat),
                rows@.len() == r,
                forall|k: int| 0 <= k < r ==> (#[trigger] rows@[k])@ == self@[k],
            decreases height - r,
        {
            let mut row: Vec<u64> = Vec::new();
            let mut c: usize = 0;
            while c < width
                invariant
                    r < height == self@.len(),
                    c <= width == self@[r as int].len(),
                    row@ == self@[r as int].subrange(0, c as int),
                decreases width - c,
            {
                row.push(self.at(r, c));
                c += 1;
            }
            assert(row@ == self@[r as int]);
            rows.push(row);
            r += 1;
        }
        assert(rows_view(rows@) =~= self@);
        rows
    }

    /// The matrix with the given rows, which has no columns where it has
    /// no rows: `None` when the rows differ in length, or when their
    /// number, their length or the bytes of their cells exceed
    /// `isize::MAX`.
    pub fn from_rows(rows: &Vec<Vec<u64>>) -> (made: Option<Matrix>)
        ensures
            made is Some <==> rectangular(rows_view(rows@), row_length(rows@)) && rows@.len()
                <= isize::MAX && row_length(rows@) <= isize::MAX && rows@.len() * row_length(rows@)
                * 8 <= isize::MAX,
            made is Some ==> made->0@ == rows_view(rows@) && made->0.width() == row_length(rows@),
    {
        let height = rows.len();
        let width = if height == 0 { 0 } else { rows[0].len() };
        let mut r: usize = 0;
        while r < height
            invariant
                r <= height == rows@.len(),
                height > 0 ==> rows@[0]@.len() == width,
                forall|k: int| 0 <= k < r ==> (#[trigger] rows@[k])@.len() == width,
            decreases height - r,
        {
            if rows[r].len() != width {
                assert(rows_view(rows@)[r as int].len() != row_length(rows@));
                return None;
            }
            r += 1;
        }
        assert(rectangular(rows_view(rows@), width as nat));
        let fits = height <= isize::MAX as usize && width <= isize::MAX as usize && match height.checked_mul(
            width,
        ) {
            None => false,
            Some(cells) => cells <= isize::MAX as usize / 8,
        };
        if !fits {
            return None;
        }
        let mut m = Matrix::zeros(height, width);
        let mut r: usize = 0;
        while r < height
            invariant
                r <= height == rows@.len() == m@.len(),
                m.width() == width,
                rectangular(rows_view(rows@), width as nat),
                rectangular(m@, width as nat),
                forall|k: int| 0 <= k < r ==> (#[trigger] m@[k]) == rows@[k]@,
            decreases height - r,
        {
            assert(rows_view(rows@)[r as int].len() == width);
            let mut c: usize = 0;
            while c < width
                invariant
                    r < height == rows@.len() == m@.len(),
                    c <= width,
                    m.width() == width,
                    rows@[r as int]@.len() == width,
                    rectangular(m@, width as nat),
                    forall|k: int| 0 <= k < r ==> (#[trigger] m@[k]) == rows@[k]@,
                    m@[r as int].subrange(0, c as int) == rows@[r as int]@.subrange(0, c as int),
                decreases width - c,
            {
                let ghost before = m@;
                m.put(r, c, rows[r][c]);
                assert(m@[r as int].subrange(0, c + 1) =~= rows@[r as int]@.subrange(0, c + 1)) by {
                    assert forall|k: int| 0 <= k < c + 1 implies m@[r as int][k] == rows@[r as int]@[k] by {
                        if k < c {
                            assert(before[r as int].subrange(0, c as int)[k] == rows@[r as int]@.subrange(
                                0,
                                c as int,
                            )[k]);
                        }
                    }
                }
                c += 1;
            }
            assert(m@[r as int] =~= rows@[r as int]@) by {
                assert(rows_view(rows@)[r as int].len() == width);
                assert(m@[r as int].subrange(0, width as int) == m@[r as int]);
                assert(rows@[r as int]@.subrange(0, width as int) == rows@[r as int]@);
            }
            r += 1;
        }
        assert(m@ =~= rows_view(rows@));
        Some(m)
    }
}

impl Vector {
    /// `ndarray::Array1::from_vec`: the vector with the given items.
    #[verifier::external_body]
    pub(crate) fn wrap(items: Vec<u64>) -> (v: Vector)
        ensures
            vector_items(v) == items@,
    {
        Vector { cells: ndarray::Array1::from_vec(items) }
    }

    /// `ndarray::ArrayBase::len`: the number of items.
    #[verifier::external_body]
    pub(crate) fn len(&self) -> (n: usize)
        ensures
            n == vector_items(*self).len(),
    {
        self.cells.len()
    }

    /// Indexing a one-dimensional `ndarray` array: the item there. Out of
    /// bounds it panics.
    #[verifier::external_body]
    pub(crate) fn at(&self, i: usize) -> (v: u64)
        requires
            i < vector_items(*self).len(),
        ensures
            v == vector_items(*self)[i as int],
    {
        self.cells[i]
    }

    /// `ndarray::ArrayBase::sum`: the sum of the items. It adds with `+`,
    /// which panics on overflow in a debug build.
    #[verifier::external_body]
    pub(crate) fn sum(&self) -> (s: u64)
        requires
            total(vector_items(*self)) <= u64::MAX,
        ensures
            s == total(vector_items(*self)),
    {
        self.cells.sum()
    }

    /// `ndarray::Array::append` along the only axis, with a view of one
    /// item: the item is added at the end. It fails when the grown vector
    /// has too many items and panics when their bytes do not fit the
    /// address space; the precondition rules out both.
    #[verifier::external_body]
    pub(crate) fn append(&mut self, item: u64) -> (r: Result<(), ndarray::ShapeError>)
        requires
            (vector_items(*old(self)).len() + 1) * 8 <= isize::MAX,
        ensures
            r is Ok,
            vector_items(*final(self)) == vector_items(*old(self)).push(item),
    {
        self.cells.append(ndarray::Axis(0), ndarray::ArrayView::from(&[item]))
    }

    /// `ndarray::ArrayBase::slice_axis` along the only axis, copied by
    /// `to_owned`: the items `left..=right`. The slice panics when the
    /// range leaves the vector.
    #[verifier::external_body]
    pub(crate) fn between(&self, left: usize, right: usize) -> (v: Vector)
        requires
            left <= right < vector_items(*self).len(),
        ensures
            vector_items(v) == vector_items(*self).subrange(left as int, right + 1),
    {
        Vector {
            cells: self.cells.slice_axis(ndarray::Axis(0), ndarray::Slice::from(left..=right)).to_owned(),
        }
    }

    /// The vector with the given items.
    pub fn from_vec(items: Vec<u64>) -> (v: Vector)
        ensures
            v@ == items@,
    {
        Vector::wrap(items)
    }

    /// The item at index `i`, if there is one.
    pub fn get(&self, i: usize) -> (item: Option<u64>)
        ensures
            item == if i < self@.len() {
                Some(self@[i as int])
            } else {
                None
            },
    {
        if i < self.len() {
            Some(self.at(i))
        } else {
            None
        }
    }

    /// The items as a `Vec`.
    pub fn to_vec(&self) -> (items: Vec<u64>)
        ensures
            items@ == self@,
    {
        let n = self.len();
        let mut items: Vec<u64> = Vec::new();
        let mut i: usize = 0;
        while i < n
            invariant
                i <= n == self@.len(),
                items@ == self@.subrange(0, i as int),
            decreases n - i,
        {
            items.push(self.at(i));
            i += 1;
        }
        assert(items@ == self@);
        items
    }
}

} // verus!

//! Two-dimensional views over flat row-major buffers.
//!
//! A view borrows its buffer and knows one number, the row stride. The extents are the
//! caller's: element `(y, x)` lies at offset `y * cols + x`, wherever that offset falls.

use vstd::prelude::*;

verus! {

/// Linear offset of element `(y, x)` in a row-major buffer whose rows hold `cols` elements.
pub open spec fn offset(cols: int, y: int, x: int) -> int {
    y * cols + x
}

/// Element `(y, x)` of the row-major buffer `data`.
pub open spec fn entry<T>(data: Seq<T>, cols: int, y: int, x: int) -> T {
    data[offset(cols, y, x)]
}

/// Row `y` of the buffer: its `cols` elements, left to right.
pub open spec fn row<T>(data: Seq<T>, cols: int, y: int) -> Seq<T> {
    Seq::new(cols as nat, |x: int| entry(data, cols, y, x))
}

/// Column `x` of the buffer: the elements of its first `rows` rows, top to bottom.
pub open spec fn col<T>(data: Seq<T>, cols: int, rows: int, x: int) -> Seq<T> {
    Seq::new(rows as nat, |y: int| entry(data, cols, y, x))
}

/// Read-only view: a shared borrow of the buffer, and the row stride.
pub struct Matrix<'a, T> {
    pub data: &'a [T],
    pub cols: usize,
}

/// Mutable view: an exclusive borrow of the buffer, and the row stride.
pub struct MutMatrix<'a, T> {
    pub data: &'a mut [T],
    pub cols: usize,
}

impl<'a, T: Copy> Matrix<'a, T> {
    /// Reads element `(y, x)`.
    pub fn get(&self, y: usize, x: usize) -> (v: T)
        requires
            offset(self.cols as int, y as int, x as int) < self.data.len(),
        ensures
            v == entry(self.data@, self.cols as int, y as int, x as int),
    {
        assert(y * self.cols >= 0) by (nonlinear_arith);
        self.data[y * self.cols + x]
    }
}

impl<'a, T> MutMatrix<'a, T> {
    /// Borrows element `(y, x)` for writing. What is written there is all that changes: the
    /// stride stays, the other elements stay, and the view goes on borrowing the same buffer,
    /// so that the lender finds in it what the view holds when it is given up.
    pub fn get_mut(&mut self, y: usize, x: usize) -> (cell: &mut T)
        requires
            offset(old(self).cols as int, y as int, x as int) < old(self).data.len(),
        ensures
            *cell == entry(old(self).data@, old(self).cols as int, y as int, x as int),
            final(self).cols == old(self).cols,
            final(self).data@ == old(self).data@.update(
                offset(old(self).cols as int, y as int, x as int),
                *final(cell),
            ),
            final(final(self).data)@ == final(old(self).data)@,
    {
        assert(y * self.cols >= 0) by (nonlinear_arith);
        &mut self.data[y * self.cols + x]
    }
}

/// A row ends where the next begins, at or before the start of any later row.
pub proof fn lemma_rows_apart(n: int, i1: int, i2: int)
    by (nonlinear_arith)
    requires
        0 <= n,
        i1 < i2,
    ensures
        (i1 + 1) * n == i1 * n + n,
        (i1 + 1) * n <= i2 * n,
{
}

/// Element `(i, j)` of `m` rows of `n` lies in row `i`, inside the first `m * n` offsets.
pub proof fn lemma_entry_in_rows(m: int, n: int, i: int, j: int)
    by (nonlinear_arith)
    requires
        0 <= i < m,
        0 <= j < n,
    ensures
        0 <= i * n <= offset(n, i, j) < i * n + n <= m * n,
{
}

/// An offset inside the first `m` rows of `n` is that of one row and one column.
pub proof fn lemma_split_offset(p: int, m: int, n: int)
    by (nonlinear_arith)
    requires
        0 <= p < m * n,
        0 <= m,
        0 <= n,
    ensures
        0 < n,
        0 <= p / n < m,
        0 <= p % n < n,
        offset(n, p / n, p % n) == p,
{
}

} // verus!

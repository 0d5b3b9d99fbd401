//! A fixed-size two-dimensional grid stored row-major in one vector.
use vstd::prelude::*;

verus! {

/// A grid of `dim_1` rows of `dim_2` entries each, stored row after row.
#[derive(Debug, PartialEq)]
pub struct FlatBoard<T> {
    dim_1: usize,
    dim_2: usize,
    data: Vec<T>,
}

/// The index in the backing sequence of entry `col` of row `row`.
pub open spec fn flat_index(cols: int, row: int, col: int) -> int {
    row * cols + col
}

/// An entry of a grid in bounds has an index in bounds, and distinct entries
/// have distinct indices.
pub proof fn lemma_flat_index(rows: int, cols: int, row: int, col: int)
    requires
        0 <= row < rows,
        0 <= col < cols,
    ensures
        0 <= flat_index(cols, row, col) < rows * cols,
        0 <= row * cols,
        row * cols + cols <= rows * cols,
{
    lemma_row_start(rows, cols, row);
}

/// A row in bounds starts and ends inside the backing sequence.
pub proof fn lemma_row_start(rows: int, cols: int, row: int)
    requires
        0 <= row < rows,
        0 <= cols,
    ensures
        0 <= row * cols,
        row * cols + cols <= rows * cols,
{
    assert(0 <= row * cols) by (nonlinear_arith)
        requires
            0 <= row,
            0 <= cols,
    ;
    assert(row * cols + cols <= rows * cols) by (nonlinear_arith)
        requires
            row + 1 <= rows,
            0 <= cols,
    ;
}

/// Two positions of a grid in bounds with the same index are the same position.
pub proof fn lemma_flat_index_injective(cols: int, r1: int, c1: int, r2: int, c2: int)
    requires
        0 <= r1,
        0 <= r2,
        0 <= c1 < cols,
        0 <= c2 < cols,
        flat_index(cols, r1, c1) == flat_index(cols, r2, c2),
    ensures
        r1 == r2,
        c1 == c2,
{
    if r1 < r2 {
        assert(r1 * cols + cols <= r2 * cols) by (nonlinear_arith)
            requires
                r1 + 1 <= r2,
                0 <= cols,
        ;
    } else if r2 < r1 {
        assert(r2 * cols + cols <= r1 * cols) by (nonlinear_arith)
            requires
                r2 + 1 <= r1,
                0 <= cols,
        ;
    }
}

impl<T> FlatBoard<T> {
    /// The number of rows.
    pub closed spec fn rows(&self) -> nat {
        self.dim_1 as nat
    }

    /// The number of entries in each row.
    pub closed spec fn cols(&self) -> nat {
        self.dim_2 as nat
    }

    /// All entries, row after row.
    pub closed spec fn cells(&self) -> Seq<T> {
        self.data@
    }

    /// The backing sequence holds exactly one entry per position.
    pub open spec fn wf(&self) -> bool {
        self.cells().len() == self.rows() * self.cols()
    }

    /// The entry at `col` of row `row`.
    pub open spec fn at(&self, row: int, col: int) -> T {
        self.cells()[flat_index(self.cols() as int, row, col)]
    }

    /// The entries of row `row`.
    pub open spec fn row(&self, row: int) -> Seq<T> {
        self.cells().subrange(row * self.cols(), row * self.cols() + self.cols())
    }

    /// The length of a grid of the given dimensions; the product must fit in `usize`.
    fn array_length(dim_1: usize, dim_2: usize) -> (r: usize)
        requires
            dim_1 * dim_2 <= usize::MAX,
        ensures
            r == dim_1 * dim_2,
    {
        dim_1 * dim_2
    }

    /// A grid of `dim_1` rows of `dim_2` entries over `data`, row after row.
    pub fn from_vec(dim_1: usize, dim_2: usize, data: Vec<T>) -> (r: Self)
        requires
            data.len() == dim_1 * dim_2,
        ensures
            r.wf(),
            r.rows() == dim_1,
            r.cols() == dim_2,
            r.cells() == data@,
    {
        FlatBoard { dim_1, dim_2, data }
    }

    /// The dimensions as (rows, entries per row).
    pub fn dimensions(&self) -> (r: (usize, usize))
        ensures
            r == (self.rows() as usize, self.cols() as usize),
    {
        (self.dim_1, self.dim_2)
    }

    /// The number of rows.
    pub fn len(&self) -> (r: usize)
        ensures
            r == self.rows(),
    {
        self.dim_1
    }

    /// Row `idx`, or `None` when there is no such row.
    pub fn get(&self, idx: usize) -> (r: Option<&[T]>)
        requires
            self.wf(),
        ensures
            idx >= self.rows() ==> r is None,
            idx < self.rows() ==> r is Some && r.unwrap()@ == self.row(idx as int),
    {
        if self.dim_1 <= idx {
            None
        } else {
            proof {
                lemma_row_start(self.rows() as int, self.cols() as int, idx as int);
            }
            let total = self.data.len();
            assert(total == self.rows() * self.cols());
            let start = idx * self.dim_2;
            Some(vstd::slice::slice_subrange(self.data.as_slice(), start, start + self.dim_2))
        }
    }

    /// Row `idx` for writing, or `None` when there is no such row; what is
    /// written to the row lands in the grid and nothing else changes.
    pub fn get_mut(&mut self, idx: usize) -> (r: Option<&mut [T]>)
        requires
            old(self).wf(),
        ensures
            idx >= old(self).rows() ==> r is None && *final(self) == *old(self),
            idx < old(self).rows() ==> r is Some && r.unwrap()@ == old(self).row(idx as int),
            idx < old(self).rows() ==> final(self).rows() == old(self).rows() && final(self).cols()
                == old(self).cols() && final(self).cells() == old(self).cells().subrange(
                0,
                idx * old(self).cols(),
            ) + final(r.unwrap())@ + old(self).cells().subrange(
                idx * old(self).cols() + old(self).cols(),
                old(self).cells().len() as int,
            ),
    {
        if self.dim_1 <= idx {
            None
        } else {
            proof {
                lemma_row_start(self.rows() as int, self.cols() as int, idx as int);
            }
            let total = self.data.len();
            assert(total == self.rows() * self.cols());
            let start = idx * self.dim_2;
            let cols = self.dim_2;
            let all = self.data.as_mut_slice();
            let (_, rest) = all.split_at_mut(start);
            let (row, _) = rest.split_at_mut(cols);
            Some(row)
        }
    }
}

/// Hands out the backing entries, row after row.
pub trait IterBacking<T> {
    fn iter_backing(&self) -> (r: &[T]);
}

/// Hands out the backing entries, row after row, for writing.
pub trait IterBackingMut<T> {
    fn iter_backing_mut(&mut self) -> (r: &mut [T]);
}

impl<T> IterBacking<T> for FlatBoard<T> {
    fn iter_backing(&self) -> (r: &[T])
        ensures
            r@ == self.cells(),
    {
        self.data.as_slice()
    }
}

impl<T> IterBackingMut<T> for FlatBoard<T> {
    /// What is written through the slice becomes the grid's entries; the
    /// dimensions stay.
    fn iter_backing_mut(&mut self) -> (r: &mut [T])
        ensures
            r@ == old(self).cells(),
            final(self).rows() == old(self).rows(),
            final(self).cols() == old(self).cols(),
            final(self).cells() == final(r)@,
    {
        self.data.as_mut_slice()
    }
}

impl<T: Copy> FlatBoard<T> {
    /// A grid of `dim_1` rows of `dim_2` entries, each a copy of `default`.
    pub fn new(dim_1: usize, dim_2: usize, default: T) -> (r: Self)
        requires
            dim_1 * dim_2 <= usize::MAX,
        ensures
            r.wf(),
            r.rows() == dim_1,
            r.cols() == dim_2,
            r.cells() == Seq::new((dim_1 * dim_2) as nat, |i: int| default),
    {
        let array_len = Self::array_length(dim_1, dim_2);
        let mut data: Vec<T> = Vec::with_capacity(array_len);
        let mut i: usize = 0;
        while i < array_len
            invariant
                i <= array_len,
                data@ == Seq::new(i as nat, |j: int| default),
            decreases array_len - i,
        {
            data.push(default);
            i = i + 1;
            assert(data@ =~= Seq::new(i as nat, |j: int| default));
        }
        FlatBoard { dim_1, dim_2, data }
    }

    /// The rows of the grid, in order.
    pub fn iter(&self) -> (r: Vec<&[T]>)
        requires
            self.wf(),
        ensures
            r.len() == self.rows(),
            forall|i: int| 0 <= i < self.rows() ==> (#[trigger] r@[i])@ == self.row(i),
    {
        let mut out: Vec<&[T]> = Vec::new();
        let mut i: usize = 0;
        while i < self.dim_1
            invariant
                self.wf(),
                i <= self.rows(),
                out.len() == i,
                forall|j: int| 0 <= j < i ==> (#[trigger] out@[j])@ == self.row(j),
            decreases self.dim_1 - i,
        {
            let row = self.get(i).unwrap();
            out.push(row);
            i = i + 1;
        }
        out
    }
}

impl<T> FlatBoard<T> {
    /// The rows of the grid, in order, for writing.
    pub fn iter_mut(&mut self) -> (r: Vec<&mut [T]>)
        requires
            old(self).wf(),
        ensures
            r.len() == old(self).rows(),
            forall|i: int| #![trigger r@[i]] 0 <= i < old(self).rows() ==> r@[i]@ == old(self).row(i),
    {
        let rows = self.dim_1;
        let cols = self.dim_2;
        let ghost cells = self.data@;
        let mut out: Vec<&mut [T]> = Vec::with_capacity(rows);
        let mut rest: &mut [T] = self.data.as_mut_slice();
        let mut i: usize = 0;
        while i < rows
            invariant
                i <= rows,
                rows == old(self).rows(),
                cols == old(self).cols(),
                cells == old(self).cells(),
                cells.len() == rows * cols,
                out.len() == i,
                rest@ == cells.subrange(i * cols, cells.len() as int),
                forall|j: int| #![trigger out@[j]] 0 <= j < i ==> out@[j]@ == cells.subrange(j * cols, j * cols + cols),
            decreases rows - i,
        {
            proof {
                lemma_row_start(rows as int, cols as int, i as int);
                assert(i * cols + cols == (i + 1) * cols) by (nonlinear_arith);
            }
            let (row, tail) = rest.split_at_mut(cols);
            out.push(row);
            rest = tail;
            i = i + 1;
        }
        out
    }
}

impl<T> Default for FlatBoard<T> {
    /// The grid with no rows and no entries.
    fn default() -> (r: Self)
        ensures
            r.rows() == 0,
            r.cols() == 0,
            r.cells().len() == 0,
            r.wf(),
    {
        FlatBoard { dim_1: 0, dim_2: 0, data: Vec::new() }
    }
}

impl<T: Default + Copy> FlatBoard<T> {
    /// A grid of `dim_1` rows of `dim_2` entries, each `T`'s default value.
    pub fn new_default(dim_1: usize, dim_2: usize) -> (r: Self)
        requires
            dim_1 * dim_2 <= usize::MAX,
        ensures
            r.wf(),
            r.rows() == dim_1,
            r.cols() == dim_2,
            forall|i: int, j: int|
                0 <= i < r.cells().len() && 0 <= j < r.cells().len() ==> r.cells()[i]
                    == r.cells()[j],
    {
        let d = T::default();
        Self::new(dim_1, dim_2, d)
    }
}

} // verus!

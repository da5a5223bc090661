//! Dense two-dimensional storage with row-major indexing.

use vstd::prelude::*;

verus! {

/// A pair of grid coordinates or grid dimensions.
#[derive(Clone, Copy, PartialEq, Eq, Debug, Structural)]
pub struct Vec2 {
    pub row: usize,
    pub column: usize,
}

impl Vec2 {
    pub fn new(row: usize, column: usize) -> (r: Vec2)
        ensures
            r == (Vec2 { row, column }),
    {
        Vec2 { row, column }
    }
}

/// A `rows x columns` grid stored row-major in one vector.
pub struct Board<T> {
    values: Vec<T>,
    size: Vec2,
}

/// The vector-backed board; the only storage this crate provides.
pub type BoardVec<T> = Board<T>;

impl<T: Copy> Board<T> {
    /// The cells of the board, row-major.
    pub closed spec fn cells(&self) -> Seq<T> {
        self.values@
    }

    pub closed spec fn spec_size(&self) -> Vec2 {
        self.size
    }

    pub open spec fn rows(&self) -> int {
        self.spec_size().row as int
    }

    pub open spec fn cols(&self) -> int {
        self.spec_size().column as int
    }

    /// The storage really holds one cell per position.
    pub open spec fn wf(&self) -> bool {
        self.cells().len() == self.rows() * self.cols()
    }

    /// The row-major index of a position.
    pub open spec fn spec_index_of(&self, position: Vec2) -> int {
        position.row * self.cols() + position.column
    }

    pub open spec fn in_bounds(&self, position: Vec2) -> bool {
        position.row < self.rows() && position.column < self.cols()
    }

    /// The cells of row `row`, left to right.
    pub open spec fn row_seq(&self, row: int) -> Seq<T> {
        Seq::new(self.cols() as nat, |i: int| self.cells()[row * self.cols() + i])
    }

    /// The cells of column `col`, top to bottom.
    pub open spec fn col_seq(&self, col: int) -> Seq<T> {
        Seq::new(self.rows() as nat, |i: int| self.cells()[i * self.cols() + col])
    }

    fn calculate_index(&self, position: Vec2) -> (r: usize)
        requires
            self.wf(),
            self.in_bounds(position),
        ensures
            r == self.spec_index_of(position),
            r < self.cells().len(),
    {
        let total = self.values.len();
        proof {
            lemma_row_major_index_bounds(
                self.rows(),
                self.cols(),
                position.row as int,
                position.column as int,
            );
            assert(self.spec_index_of(position) < total);
        }
        position.row * self.size.column + position.column
    }

    /// A board of the given size with every cell set to `init_value`.
    pub fn new(size: Vec2, init_value: T) -> (r: Board<T>)
        requires
            size.row * size.column <= usize::MAX,
        ensures
            r.wf(),
            r.spec_size() == size,
            r.cells() == Seq::new((size.row * size.column) as nat, |i: int| init_value),
    {
        let total = size.row * size.column;
        let mut values: Vec<T> = Vec::new();
        let mut i: usize = 0;
        while i < total
            invariant
                i <= total,
                values@ =~= Seq::new(i as nat, |j: int| init_value),
            decreases total - i,
        {
            values.push(init_value);
            i = i + 1;
        }
        proof {
            assert(values@ =~= Seq::new((size.row * size.column) as nat, |j: int| init_value));
        }
        Board { values, size }
    }

    /// The cell at `position`.
    pub fn value(&self, position: Vec2) -> (r: &T)
        requires
            self.wf(),
            self.in_bounds(position),
        ensures
            *r == self.cells()[self.spec_index_of(position)],
    {
        let index = self.calculate_index(position);
        &self.values[index]
    }

    /// A mutable reference to the cell at `position`.
    pub fn value_mut(&mut self, position: Vec2) -> (r: &mut T)
        requires
            old(self).wf(),
            old(self).in_bounds(position),
        ensures
            *r == old(self).cells()[old(self).spec_index_of(position)],
            final(self).cells() == old(self).cells().update(
                old(self).spec_index_of(position),
                *final(r),
            ),
            final(self).spec_size() == old(self).spec_size(),
            final(self).wf(),
    {
        let index = self.calculate_index(position);
        &mut self.values[index]
    }

    pub fn size(&self) -> (r: Vec2)
        ensures
            r == self.spec_size(),
    {
        self.size
    }

    /// The cells of row `row` as values, left to right.
    pub fn iter_row(&self, row: usize) -> (r: Vec<T>)
        requires
            self.wf(),
            row < self.rows(),
        ensures
            r@ == self.row_seq(row as int),
    {
        let cols = self.size.column;
        let mut result: Vec<T> = Vec::new();
        let mut i: usize = 0;
        while i < cols
            invariant
                self.wf(),
                row < self.rows(),
                cols == self.cols(),
                i <= cols,
                result@ =~= self.row_seq(row as int).subrange(0, i as int),
            decreases cols - i,
        {
            let v = *self.value(Vec2 { row, column: i });
            result.push(v);
            i = i + 1;
            proof {
                assert(result@ =~= self.row_seq(row as int).subrange(0, i as int));
            }
        }
        proof {
            assert(result@ =~= self.row_seq(row as int));
        }
        result
    }

    /// The cells of column `col` as values, top to bottom.
    pub fn iter_column(&self, col: usize) -> (r: Vec<T>)
        requires
            self.wf(),
            col < self.cols(),
        ensures
            r@ == self.col_seq(col as int),
    {
        let rows = self.size.row;
        let mut result: Vec<T> = Vec::new();
        let mut i: usize = 0;
        while i < rows
            invariant
                self.wf(),
                col < self.cols(),
                rows == self.rows(),
                i <= rows,
                result@ =~= self.col_seq(col as int).subrange(0, i as int),
            decreases rows - i,
        {
            let v = *self.value(Vec2 { row: i, column: col });
            result.push(v);
            i = i + 1;
            proof {
                assert(result@ =~= self.col_seq(col as int).subrange(0, i as int));
            }
        }
        proof {
            assert(result@ =~= self.col_seq(col as int));
        }
        result
    }

    /// Every cell of the board as values, row-major.
    pub fn iter_all(&self) -> (r: Vec<T>)
        ensures
            r@ == self.cells(),
    {
        let mut result: Vec<T> = Vec::new();
        let mut i: usize = 0;
        let total = self.values.len();
        while i < total
            invariant
                total == self.cells().len(),
                i <= total,
                result@ =~= self.cells().subrange(0, i as int),
            decreases total - i,
        {
            let v = self.values[i];
            result.push(v);
            i = i + 1;
            proof {
                assert(result@ =~= self.cells().subrange(0, i as int));
            }
        }
        proof {
            assert(result@ =~= self.cells());
        }
        result
    }
}

/// Writing one cell changes exactly its row and its column, each in exactly
/// one position.
pub proof fn lemma_board_update<T: Copy>(b1: &Board<T>, b2: &Board<T>, r: int, c: int, v: T)
    requires
        b1.wf(),
        b2.wf(),
        b1.rows() == b2.rows(),
        b1.cols() == b2.cols(),
        0 <= r < b1.rows(),
        0 <= c < b1.cols(),
        b2.cells() == b1.cells().update(r * b1.cols() + c, v),
    ensures
        b2.row_seq(r) == b1.row_seq(r).update(c, v),
        forall|r2: int| 0 <= r2 < b1.rows() && r2 != r ==> #[trigger] b2.row_seq(r2) == b1.row_seq(r2),
        b2.col_seq(c) == b1.col_seq(c).update(r, v),
        forall|c2: int| 0 <= c2 < b1.cols() && c2 != c ==> #[trigger] b2.col_seq(c2) == b1.col_seq(c2),
{
    let cols = b1.cols();
    lemma_row_major_index_bounds(b1.rows(), cols, r, c);
    assert forall|r2: int| 0 <= r2 < b1.rows() && r2 != r implies #[trigger] b2.row_seq(r2)
        == b1.row_seq(r2) by {
        assert forall|q: int| 0 <= q < cols implies b2.row_seq(r2)[q] == b1.row_seq(r2)[q] by {
            lemma_row_major_index_bounds(b1.rows(), cols, r2, q);
            if r2 * cols + q == r * cols + c {
                lemma_row_major_index_injective(cols, r2, q, r, c);
            }
        }
        assert(b2.row_seq(r2) =~= b1.row_seq(r2));
    }
    assert forall|c2: int| 0 <= c2 < b1.cols() && c2 != c implies #[trigger] b2.col_seq(c2)
        == b1.col_seq(c2) by {
        assert forall|q: int| 0 <= q < b1.rows() implies b2.col_seq(c2)[q] == b1.col_seq(c2)[q] by {
            lemma_row_major_index_bounds(b1.rows(), cols, q, c2);
            if q * cols + c2 == r * cols + c {
                lemma_row_major_index_injective(cols, q, c2, r, c);
            }
        }
        assert(b2.col_seq(c2) =~= b1.col_seq(c2));
    }
    let updated_row = b1.row_seq(r).update(c, v);
    assert forall|q: int| 0 <= q < cols implies b2.row_seq(r)[q] == updated_row[q] by {
        lemma_row_major_index_bounds(b1.rows(), cols, r, q);
        if q != c && r * cols + q == r * cols + c {
            lemma_row_major_index_injective(cols, r, q, r, c);
        }
    }
    assert(b2.row_seq(r) =~= b1.row_seq(r).update(c, v));
    let updated_col = b1.col_seq(c).update(r, v);
    assert forall|q: int| 0 <= q < b1.rows() implies b2.col_seq(c)[q] == updated_col[q] by {
        lemma_row_major_index_bounds(b1.rows(), cols, q, c);
        if q != r && q * cols + c == r * cols + c {
            lemma_row_major_index_injective(cols, q, c, r, c);
        }
    }
    assert(b2.col_seq(c) =~= b1.col_seq(c).update(r, v));
}

/// A row-major index stays below the number of cells.
pub proof fn lemma_row_major_index_bounds(rows: int, cols: int, r: int, c: int)
    requires
        0 <= r < rows,
        0 <= c < cols,
    ensures
        0 <= r * cols + c < rows * cols,
        r * cols + c < rows * cols,
{
    assert(r * cols + c < rows * cols) by (nonlinear_arith)
        requires
            0 <= r < rows,
            0 <= c < cols,
    ;
}

/// Distinct in-bounds positions have distinct row-major indices.
pub proof fn lemma_row_major_index_injective(cols: int, r1: int, c1: int, r2: int, c2: int)
    requires
        0 <= r1,
        0 <= c1 < cols,
        0 <= r2,
        0 <= c2 < cols,
        r1 * cols + c1 == r2 * cols + c2,
    ensures
        r1 == r2 && c1 == c2,
{
    assert(r1 == r2 && c1 == c2) by (nonlinear_arith)
        requires
            0 <= r1,
            0 <= c1 < cols,
            0 <= r2,
            0 <= c2 < cols,
            r1 * cols + c1 == r2 * cols + c2,
    ;
}

} // verus!

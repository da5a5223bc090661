//! The trinary cell value and its merge algebra.
//!
//! A grid cell is `Unknown`, `Block` (filled) or `Blank` (empty).  `Crash` is
//! a transient value produced by merging two contradictory determined cells;
//! it is never stored in a board.

use vstd::prelude::*;

verus! {

#[derive(Clone, Copy, PartialEq, Eq, Debug, Structural)]
pub enum Cell {
    Block,
    Blank,
    Crash,
    Unknown,
}

/// The merge of two cells: `Unknown` is the identity, equal determined
/// values are kept, differing determined values crash, and `Crash` absorbs.
pub open spec fn spec_merge(a: Cell, b: Cell) -> Cell {
    match (a, b) {
        (Cell::Unknown, _) => b,
        (_, Cell::Unknown) => a,
        (Cell::Crash, _) => Cell::Crash,
        (_, Cell::Crash) => Cell::Crash,
        (Cell::Block, Cell::Block) => Cell::Block,
        (Cell::Blank, Cell::Blank) => Cell::Blank,
        _ => Cell::Crash,
    }
}

/// A cell a board may hold: everything but `Crash`.
pub open spec fn is_board_cell(c: Cell) -> bool {
    c != Cell::Crash
}

/// A cell that has been decided: `Block` or `Blank`.
pub open spec fn is_determined(c: Cell) -> bool {
    c == Cell::Block || c == Cell::Blank
}

impl Cell {
    /// Merge two cell values under the algebra above.
    pub fn merge(self, rhs: Cell) -> (r: Cell)
        ensures
            r == spec_merge(self, rhs),
    {
        match (self, rhs) {
            (Cell::Unknown, _) => rhs,
            (_, Cell::Unknown) => self,
            (Cell::Crash, _) => Cell::Crash,
            (_, Cell::Crash) => Cell::Crash,
            (Cell::Block, Cell::Block) => Cell::Block,
            (Cell::Blank, Cell::Blank) => Cell::Blank,
            _ => Cell::Crash,
        }
    }
}

/// The merge is commutative.
pub proof fn lemma_merge_commutative(a: Cell, b: Cell)
    ensures
        spec_merge(a, b) == spec_merge(b, a),
{
}

/// The merge is associative.
pub proof fn lemma_merge_associative(a: Cell, b: Cell, c: Cell)
    ensures
        spec_merge(spec_merge(a, b), c) == spec_merge(a, spec_merge(b, c)),
{
}

/// `Unknown` is the identity of the merge.
pub proof fn lemma_merge_identity(a: Cell)
    ensures
        spec_merge(a, Cell::Unknown) == a,
        spec_merge(Cell::Unknown, a) == a,
{
}

/// `Crash` absorbs every value.
pub proof fn lemma_merge_absorbing(a: Cell)
    ensures
        spec_merge(a, Cell::Crash) == Cell::Crash,
        spec_merge(Cell::Crash, a) == Cell::Crash,
{
}

/// Merging a value with itself gives the value back.
pub proof fn lemma_merge_idempotent(a: Cell)
    ensures
        spec_merge(a, a) == a,
{
}

/// Two determined cells merge without a crash exactly when they are equal.
pub proof fn lemma_merge_determined(a: Cell, b: Cell)
    requires
        is_determined(a),
        is_determined(b),
    ensures
        spec_merge(a, b) != Cell::Crash <==> a == b,
{
}

} // verus!

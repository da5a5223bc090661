//! Line identities and the solver's error values.

use vstd::prelude::*;

use crate::cell::Cell;

verus! {

/// The axis a line runs along.
#[derive(Clone, Copy, Hash, PartialEq, Eq, Debug, Structural)]
pub enum LineDirection {
    Row,
    Column,
}

impl LineDirection {
    /// The other axis.
    pub fn opposite(&self) -> (r: LineDirection)
        ensures
            r == self.spec_opposite(),
    {
        match self {
            LineDirection::Row => LineDirection::Column,
            LineDirection::Column => LineDirection::Row,
        }
    }

    pub open spec fn spec_opposite(self) -> LineDirection {
        match self {
            LineDirection::Row => LineDirection::Column,
            LineDirection::Column => LineDirection::Row,
        }
    }
}

/// A line identity: its axis and its index along that axis, packed in one
/// word with the axis in the top bit.
#[derive(Clone, Copy, Hash, PartialEq, Eq, Debug, Structural)]
pub struct Line {
    pub packed: u32,
}

impl Line {
    /// The axis the packed word denotes.
    pub open spec fn spec_direction(self) -> LineDirection {
        if self.packed & 0x8000_0000u32 == 0 {
            LineDirection::Row
        } else {
            LineDirection::Column
        }
    }

    /// The index along the axis the packed word denotes.
    pub open spec fn spec_index(self) -> int {
        (self.packed & 0x7fff_ffffu32) as int
    }

    pub fn new(direction: LineDirection, index: usize) -> (r: Line)
        requires
            index < 0x8000_0000,
        ensures
            r.spec_direction() == direction,
            r.spec_index() == index,
    {
        let dir_bit: u32 = match direction {
            LineDirection::Row => 0,
            LineDirection::Column => 0x8000_0000u32,
        };
        let packed = dir_bit | (index as u32);
        proof {
            let i = index as u32;
            assert(i & 0x8000_0000u32 == 0 && (0u32 | i) == i && (0x8000_0000u32 | i)
                & 0x8000_0000u32 != 0 && (0u32 | i) & 0x7fff_ffffu32 == i && (0x8000_0000u32 | i)
                & 0x7fff_ffffu32 == i) by (bit_vector)
                requires
                    i < 0x8000_0000u32,
            ;
        }
        Line { packed }
    }

    pub fn direction(&self) -> (r: LineDirection)
        ensures
            r == self.spec_direction(),
    {
        if self.packed & 0x8000_0000u32 == 0 {
            LineDirection::Row
        } else {
            LineDirection::Column
        }
    }

    pub fn index(&self) -> (r: usize)
        ensures
            r == self.spec_index(),
    {
        (self.packed & 0x7fff_ffffu32) as usize
    }
}

/// A hint that cannot be satisfied on its line, with the offending line and
/// the size it had to fit in.
#[derive(Debug)]
pub struct InvalidInfoError {
    pub error_line: Line,
    pub size: usize,
    pub message: String,
}

/// A solving step that went wrong: the line being solved, its cells, the
/// pattern under evaluation and its hint.
#[derive(Debug)]
pub struct SolvingError {
    pub current_line: Vec<Cell>,
    pub calculating_line: Vec<Cell>,
    pub hint: Vec<usize>,
    pub error_line: Line,
    pub message: String,
}

/// Everything the solver can reject or fail on.
#[derive(Debug)]
pub enum SolverError {
    /// The board has a zero dimension, or one too large to enumerate.
    InvalidBoardSize(usize, usize),
    /// A hint does not fit its line or holds a zero run.
    InvalidInitialInfo(InvalidInfoError),
    /// The surviving arrangements of some line ran out: the puzzle is
    /// unsatisfiable from the current board.
    InvalidSolvingState(SolvingError),
}

} // verus!

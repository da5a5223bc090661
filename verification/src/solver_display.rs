//! The narrow interface the solver reports its progress through.

use vstd::prelude::*;

use crate::board::Board;
use crate::cell::Cell;
use crate::types::Line;

verus! {

/// A snapshot handed to the display while one line is being solved.
pub struct SolvingState<'a> {
    /// The board as it stands.
    pub board: &'a Board<Cell>,
    /// The line being solved.
    pub line: Line,
    /// The lines still waiting, cheapest first.
    pub line_waiting: Vec<Line>,
}

/// The phases a solver run goes through.
pub enum SolverState<'a> {
    Loading(String),
    Idle,
    Solving(SolvingState<'a>),
    Solved,
    Error(String),
}

/// A sink for state transitions and progress ticks.  The solver promises
/// nothing about these values beyond what its own contracts say; a sink may
/// drop or batch what it receives but must not block indefinitely.
pub trait SolverDisplay {
    fn change_state(&mut self, state: SolverState<'_>);

    fn update_progress(&mut self, progress: (usize, usize));
}

/// A sink that ignores everything; useful when no display is wanted.
pub struct SilentDisplay {}

impl SolverDisplay for SilentDisplay {
    fn change_state(&mut self, state: SolverState<'_>) {
    }

    fn update_progress(&mut self, progress: (usize, usize)) {
    }
}

} // verus!

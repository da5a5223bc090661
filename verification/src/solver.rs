//! The scheduler: owns the board and one solving strategy per axis, keeps
//! the set of lines whose cells changed, and drives line solving until no
//! line is dirty.

use vstd::prelude::*;

use crate::board::{Board, Vec2};
use crate::cell::{Cell, is_board_cell, is_determined, spec_merge};
use crate::calculator::NumberDistributionCalculator;
use crate::distribution::nats_of;
use crate::line_pattern::{candidate_count, pattern_of, run_lengths, valid_hint};
use crate::solver_display::{SolverDisplay, SolverState, SolvingState};
use crate::solving_strategy::{SolvingStrategy, compatible, merged_ok, survivors, all_place};
use crate::types::{InvalidInfoError, Line, LineDirection, SolverError, SolvingError};

verus! {

/// How many cells of a line are still unknown.
pub open spec fn count_unknown(s: Seq<Cell>) -> nat
    decreases s.len(),
{
    if s.len() == 0 {
        0
    } else {
        (if s[0] == Cell::Unknown {
            1nat
        } else {
            0nat
        }) + count_unknown(s.skip(1))
    }
}

/// How many flags of a dirty-line set are raised.
pub open spec fn count_trues(s: Seq<bool>) -> nat
    decreases s.len(),
{
    if s.len() == 0 {
        0
    } else {
        (if s[0] {
            1nat
        } else {
            0nat
        }) + count_trues(s.skip(1))
    }
}

/// Cells only ever become more determined, so the unknown count cannot grow.
proof fn lemma_count_unknown_le(a: Seq<Cell>, b: Seq<Cell>)
    requires
        a.len() == b.len(),
        forall|i: int| 0 <= i < b.len() && #[trigger] b[i] == Cell::Unknown ==> a[i] == Cell::Unknown,
    ensures
        count_unknown(b) <= count_unknown(a),
    decreases a.len(),
{
    if a.len() > 0 {
        lemma_count_unknown_le(a.skip(1), b.skip(1));
    }
}

/// Determining at least one unknown cell strictly shrinks the unknown count.
proof fn lemma_count_unknown_lt(a: Seq<Cell>, b: Seq<Cell>, w: int)
    requires
        a.len() == b.len(),
        forall|i: int| 0 <= i < b.len() && #[trigger] b[i] == Cell::Unknown ==> a[i] == Cell::Unknown,
        0 <= w < a.len(),
        a[w] == Cell::Unknown,
        b[w] != Cell::Unknown,
    ensures
        count_unknown(b) < count_unknown(a),
    decreases a.len(),
{
    if w == 0 {
        lemma_count_unknown_le(a.skip(1), b.skip(1));
    } else {
        lemma_count_unknown_lt(a.skip(1), b.skip(1), w - 1);
    }
}

/// There are never more raised flags than flags.
proof fn lemma_count_trues_bound(s: Seq<bool>)
    ensures
        count_trues(s) <= s.len(),
    decreases s.len(),
{
    if s.len() > 0 {
        lemma_count_trues_bound(s.skip(1));
    }
}

/// No raised flags means a zero count.
proof fn lemma_count_trues_none(s: Seq<bool>)
    requires
        forall|m: int| 0 <= m < s.len() ==> !s[m],
    ensures
        count_trues(s) == 0,
    decreases s.len(),
{
    if s.len() > 0 {
        assert(forall|m: int| 0 <= m < s.skip(1).len() ==> !#[trigger] s.skip(1)[m]);
        lemma_count_trues_none(s.skip(1));
    }
}

/// A count equal to the length means every flag is raised.
proof fn lemma_count_trues_full(s: Seq<bool>)
    requires
        count_trues(s) == s.len(),
    ensures
        forall|m: int| 0 <= m < s.len() ==> s[m],
    decreases s.len(),
{
    if s.len() > 0 {
        lemma_count_trues_bound(s.skip(1));
        lemma_count_trues_full(s.skip(1));
        assert(forall|m: int| 0 <= m < s.skip(1).len() ==> #[trigger] s.skip(1)[m]);
        assert forall|m: int| 0 <= m < s.len() implies s[m] by {
            if m > 0 {
                assert(s.skip(1)[m - 1]);
            }
        }
    }
}

/// Updating one flag changes the count by exactly the flag difference.
proof fn lemma_count_trues_update(s: Seq<bool>, i: int, v: bool)
    requires
        0 <= i < s.len(),
    ensures
        count_trues(s.update(i, v)) == count_trues(s) + (if v {
            1int
        } else {
            0int
        }) - (if s[i] {
            1int
        } else {
            0int
        }),
    decreases s.len(),
{
    if i == 0 {
        assert(s.update(0, v).skip(1) =~= s.skip(1));
    } else {
        lemma_count_trues_update(s.skip(1), i - 1, v);
        assert(s.update(i, v).skip(1) =~= s.skip(1).update(i - 1, v));
    }
}

/// The line-propagation solver over a rectangular board.
pub struct Solver<D: SolverDisplay> {
    board: Board<Cell>,
    row_strategy: SolvingStrategy,
    column_strategy: SolvingStrategy,
    possibility_count: Vec<usize>,
    line_changed: Vec<bool>,
    display: D,
}

impl<D: SolverDisplay> Solver<D> {
    pub closed spec fn rows(&self) -> int {
        self.board.rows()
    }

    pub closed spec fn cols(&self) -> int {
        self.board.cols()
    }

    /// Rows first, then columns.
    pub open spec fn total_lines(&self) -> int {
        self.rows() + self.cols()
    }

    /// The board cells, row-major.
    pub closed spec fn board_cells(&self) -> Seq<Cell> {
        self.board.cells()
    }

    /// The length of line `l`.
    pub open spec fn len_of(&self, l: int) -> nat {
        if l < self.rows() {
            self.cols() as nat
        } else {
            self.rows() as nat
        }
    }

    /// The hint of line `l`.
    pub closed spec fn hint_of(&self, l: int) -> Seq<nat> {
        if l < self.rows() {
            self.row_strategy.hint_at(l)
        } else {
            self.column_strategy.hint_at(l - self.rows())
        }
    }

    /// The viable arrangement set of line `l`.
    pub closed spec fn cands_of(&self, l: int) -> Set<int> {
        if l < self.rows() {
            self.row_strategy.cands(l)
        } else {
            self.column_strategy.cands(l - self.rows())
        }
    }

    /// The cells of line `l` as they stand.
    pub closed spec fn cells_of(&self, l: int) -> Seq<Cell> {
        if l < self.rows() {
            self.board.row_seq(l)
        } else {
            self.board.col_seq(l - self.rows())
        }
    }

    /// Whether line `l` is marked dirty.
    pub closed spec fn dirty(&self, l: int) -> bool {
        self.line_changed@[l]
    }

    /// How many lines are marked dirty.
    pub closed spec fn dirty_count(&self) -> nat {
        count_trues(self.line_changed@)
    }

    /// The cached number of viable arrangements of line `l`.
    pub closed spec fn count_of(&self, l: int) -> nat {
        self.possibility_count@[l] as nat
    }

    /// No line is waiting to be solved.
    pub open spec fn quiescent(&self) -> bool {
        forall|l: int| 0 <= l < self.total_lines() ==> !(#[trigger] self.dirty(l))
    }

    /// Every cell is determined.
    pub open spec fn spec_solved(&self) -> bool {
        forall|i: int|
            0 <= i < self.board_cells().len() ==> #[trigger] self.board_cells()[i] != Cell::Unknown
    }

    /// The cells of every line match the line's hint.
    pub open spec fn board_matches_hints(&self) -> bool {
        forall|l: int|
            0 <= l < self.total_lines() ==> run_lengths(#[trigger] self.cells_of(l)) == self.hint_of(
                l,
            )
    }

    /// Every arrangement the line still holds viable agrees with the cells
    /// of every line that is not waiting to be solved.
    pub open spec fn lines_consistent(&self) -> bool {
        forall|l: int, i: int|
            0 <= l < self.total_lines() && !self.dirty(l) && #[trigger] self.cands_of(l).contains(
                i,
            ) ==> compatible(
                pattern_of(self.hint_of(l), self.len_of(l), i as nat),
                self.cells_of(l),
            )
    }

    pub closed spec fn wf_inner(&self) -> bool {
        &&& self.board.wf()
        &&& 1 <= self.rows() < 0x8000_0000
        &&& 1 <= self.cols() < 0x8000_0000
        &&& self.rows() + self.cols() <= usize::MAX
        &&& self.row_strategy.wf()
        &&& self.row_strategy.num_lines() == self.rows()
        &&& self.row_strategy.spec_length() == self.cols()
        &&& self.column_strategy.wf()
        &&& self.column_strategy.num_lines() == self.cols()
        &&& self.column_strategy.spec_length() == self.rows()
        &&& self.possibility_count@.len() == self.total_lines()
        &&& self.line_changed@.len() == self.total_lines()
        &&& forall|i: int|
            0 <= i < self.board_cells().len() ==> is_board_cell(#[trigger] self.board_cells()[i])
    }

    /// The cached per-line counts agree with the viable sets.
    pub open spec fn counts_ok(&self) -> bool {
        forall|l: int|
            0 <= l < self.total_lines() ==> #[trigger] self.count_of(l) == self.cands_of(l).len()
    }

    /// The solver's invariant: shapes agree, the counts are current, the
    /// board holds no crash, and every line that is not dirty is consistent
    /// with its viable set.
    pub open spec fn wf(&self) -> bool {
        self.wf_inner() && self.counts_ok() && self.lines_consistent()
    }

    /// The row-major index of the line's global identity: rows first.
    pub open spec fn spec_line_index(&self, line: Line) -> int {
        match line.spec_direction() {
            LineDirection::Row => line.spec_index(),
            LineDirection::Column => self.rows() + line.spec_index(),
        }
    }

    pub open spec fn line_in_range(&self, line: Line) -> bool {
        match line.spec_direction() {
            LineDirection::Row => line.spec_index() < self.rows(),
            LineDirection::Column => line.spec_index() < self.cols(),
        }
    }

    /// Validate one axis of hints: every run positive, every hint within the
    /// line length.  An error names the first offending line of the axis.
    fn validate_hints(size: usize, hints: &Vec<Vec<usize>>, direction: LineDirection) -> (r:
        Result<(), SolverError>)
        requires
            hints@.len() < 0x8000_0000,
        ensures
            r is Ok <==> forall|l: int|
                0 <= l < hints@.len() ==> valid_hint(nats_of(#[trigger] hints@[l]@), size as nat),
            r matches Err(e) ==> (e matches SolverError::InvalidInitialInfo(info) && ({
                let idx = info.error_line.spec_index();
                &&& info.error_line.spec_direction() == direction
                &&& info.size == size
                &&& 0 <= idx < hints@.len()
                &&& !valid_hint(nats_of(hints@[idx]@), size as nat)
                &&& forall|m: int|
                    0 <= m < idx ==> valid_hint(nats_of(#[trigger] hints@[m]@), size as nat)
            })),
    {
        let mut l: usize = 0;
        while l < hints.len()
            invariant
                l <= hints@.len(),
                hints@.len() < 0x8000_0000,
                forall|m: int|
                    0 <= m < l ==> valid_hint(nats_of(#[trigger] hints@[m]@), size as nat),
            decreases hints@.len() - l,
        {
            let hint = &hints[l];
            let ghost hall = nats_of(hint@);
            let mut sum: usize = 0;
            let mut j: usize = 0;
            while j < hint.len()
                invariant
                    l < hints@.len(),
                    hints@.len() < 0x8000_0000,
                    forall|m: int|
                        0 <= m < l ==> valid_hint(nats_of(#[trigger] hints@[m]@), size as nat),
                    hall == nats_of(hint@),
                    hall == nats_of(hints@[l as int]@),
                    hall.len() == hint@.len(),
                    j <= hint@.len(),
                    sum <= size,
                    sum == crate::distribution::seq_sum(hall.take(j as int)),
                    forall|q: int| 0 <= q < j ==> hall[q] >= 1,
                decreases hint@.len() - j,
            {
                let h = hint[j];
                proof {
                    assert(hall.take(j + 1) =~= hall.take(j as int) + seq![hall[j as int]]);
                    crate::distribution::lemma_seq_sum_concat(
                        hall.take(j as int),
                        seq![hall[j as int]],
                    );
                    assert(seq![hall[j as int]].skip(1) =~= Seq::<nat>::empty());
                    assert(crate::distribution::seq_sum(Seq::<nat>::empty()) == 0);
                    assert(crate::distribution::seq_sum(seq![hall[j as int]]) == seq![
                        hall[j as int],
                    ][0] + crate::distribution::seq_sum(seq![hall[j as int]].skip(1)));
                }
                if h == 0 || h > size || sum > size - h {
                    proof {
                        if h != 0 {
                            crate::distribution::lemma_seq_sum_prefix(hall, j + 1);
                            assert(crate::distribution::seq_sum(hall) >= sum + h);
                            assert(!crate::line_pattern::hint_fits(hall, size as nat));
                        }
                        assert(hall == nats_of(hints@[l as int]@));
                        if h == 0 {
                            assert(hall[j as int] == 0);
                        }
                        assert(!valid_hint(hall, size as nat));
                        assert(!valid_hint(nats_of(hints@[l as int]@), size as nat));
                    }
                    return Err(
                        SolverError::InvalidInitialInfo(
                            InvalidInfoError {
                                error_line: Line::new(direction, l),
                                size,
                                message: invalid_hint_message(),
                            },
                        ),
                    );
                }
                sum = sum + h;
                j = j + 1;
            }
            proof {
                assert(hall.take(hall.len() as int) =~= hall);
                crate::solving_strategy::lemma_seq_sum_at_least_len(hall);
            }
            if hint.len() > 0 && sum - 1 > size - hint.len() {
                proof {
                    assert(!crate::line_pattern::hint_fits(hall, size as nat));
                }
                return Err(
                    SolverError::InvalidInitialInfo(
                        InvalidInfoError {
                            error_line: Line::new(direction, l),
                            size,
                            message: invalid_hint_message(),
                        },
                    ),
                );
            }
            proof {
                if hall.len() == 0 {
                    assert(crate::distribution::seq_sum(hall) == 0);
                }
                assert(valid_hint(hall, size as nat));
            }
            l = l + 1;
        }
        Ok(())
    }

    /// Build a solver.  The board must have both dimensions, small enough to
    /// index, every hint must be satisfiable on its line, and no hint may
    /// have more arrangements than fit in `usize`; any breach is reported
    /// before any solving work.  Every line starts dirty and every cell
    /// unknown.
    pub fn new(
        size: Vec2,
        row_hint: Vec<Vec<usize>>,
        column_hint: Vec<Vec<usize>>,
        display: D,
    ) -> (r: Result<Solver<D>, SolverError>)
        requires
            row_hint@.len() == size.row,
            column_hint@.len() == size.column,
        ensures
            r is Ok <==> ({
                &&& 1 <= size.row < 0x8000_0000
                &&& 1 <= size.column < 0x8000_0000
                &&& size.row * size.column <= usize::MAX
                &&& forall|l: int|
                    0 <= l < row_hint@.len() ==> valid_hint(
                        nats_of(#[trigger] row_hint@[l]@),
                        size.column as nat,
                    )
                &&& forall|l: int|
                    0 <= l < column_hint@.len() ==> valid_hint(
                        nats_of(#[trigger] column_hint@[l]@),
                        size.row as nat,
                    )
                &&& forall|l: int|
                    0 <= l < row_hint@.len() ==> candidate_count(
                        nats_of(#[trigger] row_hint@[l]@),
                        size.column as nat,
                    ) <= usize::MAX
                &&& forall|l: int|
                    0 <= l < column_hint@.len() ==> candidate_count(
                        nats_of(#[trigger] column_hint@[l]@),
                        size.row as nat,
                    ) <= usize::MAX
            }),
            r matches Ok(s) ==> ({
                &&& s.wf()
                &&& s.rows() == size.row
                &&& s.cols() == size.column
                &&& forall|l: int|
                    0 <= l < size.row ==> #[trigger] s.hint_of(l) == nats_of(row_hint@[l]@)
                &&& forall|l: int|
                    0 <= l < size.column ==> #[trigger] s.hint_of(size.row + l) == nats_of(
                        column_hint@[l]@,
                    )
                &&& forall|i: int|
                    0 <= i < s.board_cells().len() ==> #[trigger] s.board_cells()[i]
                        == Cell::Unknown
                &&& forall|l: int| 0 <= l < s.total_lines() ==> #[trigger] s.dirty(l)
                &&& forall|l: int|
                    0 <= l < s.total_lines() ==> #[trigger] s.cands_of(l)
                        == vstd::set_lib::set_int_range(
                        0,
                        candidate_count(s.hint_of(l), s.len_of(l)) as int,
                    )
                &&& forall|l: int|
                    0 <= l < s.total_lines() ==> #[trigger] s.count_of(l) == candidate_count(
                        s.hint_of(l),
                        s.len_of(l),
                    )
            }),
            r matches Err(e) ==> ({
                let dims_ok = 1 <= size.row < 0x8000_0000 && 1 <= size.column < 0x8000_0000
                    && size.row * size.column <= usize::MAX;
                let rows_valid = forall|l: int|
                    0 <= l < row_hint@.len() ==> valid_hint(
                        nats_of(#[trigger] row_hint@[l]@),
                        size.column as nat,
                    );
                let cols_valid = forall|l: int|
                    0 <= l < column_hint@.len() ==> valid_hint(
                        nats_of(#[trigger] column_hint@[l]@),
                        size.row as nat,
                    );
                &&& (!dims_ok ==> (e matches SolverError::InvalidBoardSize(a, b) && a == size.row
                    && b == size.column))
                &&& (dims_ok && !rows_valid ==> (e matches SolverError::InvalidInitialInfo(info)
                    && {
                    let idx = info.error_line.spec_index();
                    &&& info.error_line.spec_direction() == LineDirection::Row
                    &&& 0 <= idx < row_hint@.len()
                    &&& !valid_hint(nats_of(row_hint@[idx]@), size.column as nat)
                    &&& forall|m: int|
                        0 <= m < idx ==> valid_hint(
                            nats_of(#[trigger] row_hint@[m]@),
                            size.column as nat,
                        )
                }))
                &&& (dims_ok && rows_valid && !cols_valid ==> (e
                    matches SolverError::InvalidInitialInfo(info) && {
                    let idx = info.error_line.spec_index();
                    &&& info.error_line.spec_direction() == LineDirection::Column
                    &&& 0 <= idx < column_hint@.len()
                    &&& !valid_hint(nats_of(column_hint@[idx]@), size.row as nat)
                    &&& forall|m: int|
                        0 <= m < idx ==> valid_hint(
                            nats_of(#[trigger] column_hint@[m]@),
                            size.row as nat,
                        )
                }))
                &&& (dims_ok && rows_valid && cols_valid ==> (e
                    matches SolverError::InvalidInitialInfo(info) && {
                    let idx = info.error_line.spec_index();
                    if info.error_line.spec_direction() == LineDirection::Row {
                        0 <= idx < row_hint@.len() && candidate_count(
                            nats_of(row_hint@[idx]@),
                            size.column as nat,
                        ) > usize::MAX
                    } else {
                        0 <= idx < column_hint@.len() && candidate_count(
                            nats_of(column_hint@[idx]@),
                            size.row as nat,
                        ) > usize::MAX
                    }
                }))
            }),
    {
        let mut display = display;
        display.change_state(SolverState::Loading("validating board size".to_owned()));
        if size.row == 0 || size.column == 0 || size.row >= 0x8000_0000 || size.column
            >= 0x8000_0000 {
            return Err(SolverError::InvalidBoardSize(size.row, size.column));
        }
        if size.row > usize::MAX / size.column {
            proof {
                let c = size.column as int;
                let m = usize::MAX as int;
                vstd::arithmetic::div_mod::lemma_fundamental_div_mod(m, c);
                vstd::arithmetic::div_mod::lemma_mod_bound(m, c);
                let q = m / c;
                let rm = m % c;
                assert(size.row as int >= q + 1);
                assert(size.row * size.column > usize::MAX) by (nonlinear_arith)
                    requires
                        size.row as int >= q + 1,
                        size.column as int == c,
                        usize::MAX as int == m,
                        c >= 1,
                        m == c * q + rm,
                        0 <= rm < c,
                ;
            }
            return Err(SolverError::InvalidBoardSize(size.row, size.column));
        }
        proof {
            let c = size.column as int;
            let m = usize::MAX as int;
            vstd::arithmetic::div_mod::lemma_fundamental_div_mod(m, c);
            vstd::arithmetic::div_mod::lemma_mod_bound(m, c);
            let q = m / c;
            let rm = m % c;
            assert(size.row as int <= q);
            assert(size.row * size.column <= usize::MAX) by (nonlinear_arith)
                requires
                    size.row as int <= q,
                    size.row >= 0,
                    size.column as int == c,
                    usize::MAX as int == m,
                    c >= 1,
                    m == c * q + rm,
                    0 <= rm < c,
            ;
        }

        display.change_state(SolverState::Loading("validating hints".to_owned()));
        match Self::validate_hints(size.column, &row_hint, LineDirection::Row) {
            Ok(()) => (),
            Err(e) => {
                return Err(e);
            },
        }
        match Self::validate_hints(size.row, &column_hint, LineDirection::Column) {
            Ok(()) => (),
            Err(e) => {
                return Err(e);
            },
        }

        // every hint's arrangement count must fit the machine
        let mut checker = NumberDistributionCalculator::new();
        match Self::check_counts(&mut checker, size.column, &row_hint, LineDirection::Row) {
            Ok(()) => (),
            Err(e) => {
                return Err(e);
            },
        }
        match Self::check_counts(&mut checker, size.row, &column_hint, LineDirection::Column) {
            Ok(()) => (),
            Err(e) => {
                return Err(e);
            },
        }

        display.change_state(SolverState::Loading("preparing lines".to_owned()));
        let board = Board::new(size, Cell::Unknown);
        let row_strategy = SolvingStrategy::new(size.column, row_hint);
        let column_strategy = SolvingStrategy::new(size.row, column_hint);

        let total = size.row + size.column;
        let mut possibility_count: Vec<usize> = Vec::new();
        let mut l: usize = 0;
        while l < total
            invariant
                total == size.row + size.column,
                size.row < 0x8000_0000,
                size.column < 0x8000_0000,
                row_strategy.wf(),
                row_strategy.num_lines() == size.row,
                column_strategy.wf(),
                column_strategy.num_lines() == size.column,
                l <= total,
                possibility_count@.len() == l,
                forall|m: int|
                    0 <= m < l && m < size.row ==> #[trigger] possibility_count@[m]
                        == row_strategy.cands(m).len(),
                forall|m: int|
                    size.row <= m < l ==> #[trigger] possibility_count@[m]
                        == column_strategy.cands(m - size.row).len(),
            decreases total - l,
        {
            let c = if l < size.row {
                row_strategy.get_line_possibility_count(l)
            } else {
                column_strategy.get_line_possibility_count(l - size.row)
            };
            possibility_count.push(c);
            l = l + 1;
        }

        let mut line_changed: Vec<bool> = Vec::new();
        let mut l2: usize = 0;
        while l2 < total
            invariant
                l2 <= total,
                line_changed@.len() == l2,
                forall|m: int| 0 <= m < l2 ==> #[trigger] line_changed@[m],
            decreases total - l2,
        {
            line_changed.push(true);
            l2 = l2 + 1;
        }

        display.change_state(SolverState::Idle);
        let solver = Solver {
            board,
            row_strategy,
            column_strategy,
            possibility_count,
            line_changed,
            display,
        };
        proof {
            assert forall|l: int| 0 <= l < solver.total_lines() implies #[trigger] solver.dirty(
                l,
            ) by {
                assert(solver.line_changed@[l]);
            }
            assert forall|l: int| 0 <= l < solver.total_lines() implies #[trigger] solver.cands_of(
                l,
            ) == vstd::set_lib::set_int_range(
                0,
                candidate_count(solver.hint_of(l), solver.len_of(l)) as int,
            ) && solver.count_of(l) == candidate_count(solver.hint_of(l), solver.len_of(l)) by {
                if l < size.row {
                    assert(solver.hint_of(l) == solver.row_strategy.hint_at(l));
                    assert(solver.row_strategy.hint_at(l) == nats_of(row_hint@[l]@));
                    assert(solver.cands_of(l) == solver.row_strategy.cands(l));
                    assert(solver.row_strategy.cands(l) == vstd::set_lib::set_int_range(
                        0,
                        candidate_count(nats_of(row_hint@[l]@), size.column as nat) as int,
                    ));
                    assert(solver.count_of(l) == solver.row_strategy.cands(l).len());
                } else {
                    let m = l - size.row;
                    assert(solver.hint_of(l) == solver.column_strategy.hint_at(m));
                    assert(solver.column_strategy.hint_at(m) == nats_of(column_hint@[m]@));
                    assert(solver.cands_of(l) == solver.column_strategy.cands(m));
                    assert(solver.column_strategy.cands(m) == vstd::set_lib::set_int_range(
                        0,
                        candidate_count(nats_of(column_hint@[m]@), size.row as nat) as int,
                    ));
                    assert(solver.count_of(l) == solver.column_strategy.cands(m).len());
                }
                vstd::set_lib::lemma_int_range(
                    0,
                    candidate_count(solver.hint_of(l), solver.len_of(l)) as int,
                );
            }
            assert(solver.wf_inner());
            assert(solver.counts_ok());
            assert(solver.lines_consistent());
            assert(solver.rows() == size.row);
            assert(solver.cols() == size.column);
            assert(forall|l: int|
                0 <= l < size.row ==> #[trigger] solver.hint_of(l) == nats_of(row_hint@[l]@));
            assert(forall|l: int|
                0 <= l < size.column ==> #[trigger] solver.hint_of(size.row + l) == nats_of(
                    column_hint@[l]@,
                ));
            assert(forall|i: int|
                0 <= i < solver.board_cells().len() ==> #[trigger] solver.board_cells()[i]
                    == Cell::Unknown);
        }
        Ok(solver)
    }

    /// Reject any hint whose arrangement count exceeds `usize`.
    fn check_counts(
        checker: &mut NumberDistributionCalculator,
        size: usize,
        hints: &Vec<Vec<usize>>,
        direction: LineDirection,
    ) -> (r: Result<(), SolverError>)
        requires
            old(checker).wf(),
            hints@.len() < 0x8000_0000,
            forall|l: int|
                0 <= l < hints@.len() ==> valid_hint(nats_of(#[trigger] hints@[l]@), size as nat),
        ensures
            final(checker).wf(),
            r is Ok <==> forall|l: int|
                0 <= l < hints@.len() ==> candidate_count(nats_of(#[trigger] hints@[l]@), size as nat)
                    <= usize::MAX,
            r matches Err(e) ==> (e matches SolverError::InvalidInitialInfo(info) && ({
                let idx = info.error_line.spec_index();
                &&& info.error_line.spec_direction() == direction
                &&& 0 <= idx < hints@.len()
                &&& candidate_count(nats_of(hints@[idx]@), size as nat) > usize::MAX
            })),
    {
        let mut l: usize = 0;
        while l < hints.len()
            invariant
                checker.wf(),
                hints@.len() < 0x8000_0000,
                forall|m: int|
                    0 <= m < hints@.len() ==> valid_hint(
                        nats_of(#[trigger] hints@[m]@),
                        size as nat,
                    ),
                l <= hints@.len(),
                forall|m: int|
                    0 <= m < l ==> candidate_count(nats_of(#[trigger] hints@[m]@), size as nat)
                        <= usize::MAX,
            decreases hints@.len() - l,
        {
            let hint = &hints[l];
            proof {
                crate::solving_strategy::lemma_valid_hint_short(nats_of(hint@), size as nat);
            }
            match checker.try_calc_distribute_count_line_hint(hint, size) {
                Some(_) => (),
                None => {
                    return Err(
                        SolverError::InvalidInitialInfo(
                            InvalidInfoError {
                                error_line: Line::new(direction, l),
                                size,
                                message: "the hint has more arrangements than this machine can count".to_owned(),
                            },
                        ),
                    );
                },
            }
            l = l + 1;
        }
        Ok(())
    }

    /// The position of the line's slot: rows first, then columns.
    pub fn line_to_index(&self, line: Line) -> (r: usize)
        requires
            self.wf_inner(),
            self.line_in_range(line),
        ensures
            r == self.spec_line_index(line),
            0 <= r < self.total_lines(),
    {
        match line.direction() {
            LineDirection::Row => line.index(),
            LineDirection::Column => self.board.size().row + line.index(),
        }
    }

    /// A snapshot of the cells of one line.
    pub fn get_line_cells(&self, line: Line) -> (r: Vec<Cell>)
        requires
            self.wf_inner(),
            self.line_in_range(line),
        ensures
            r@ == self.cells_of(self.spec_line_index(line)),
            r@.len() == self.len_of(self.spec_line_index(line)),
    {
        match line.direction() {
            LineDirection::Row => self.board.iter_row(line.index()),
            LineDirection::Column => self.board.iter_column(line.index()),
        }
    }

    /// Whether every cell of the board is determined.
    pub fn is_solved(&self) -> (r: bool)
        requires
            self.wf(),
        ensures
            r == self.spec_solved(),
    {
        let cells = self.board.iter_all();
        let mut i: usize = 0;
        let total = cells.len();
        while i < total
            invariant
                total == cells@.len(),
                cells@ == self.board_cells(),
                i <= total,
                forall|j: int| 0 <= j < i ==> #[trigger] cells@[j] != Cell::Unknown,
            decreases total - i,
        {
            if cells[i] == Cell::Unknown {
                return false;
            }
            i = i + 1;
        }
        true
    }

    /// The cached number of viable arrangements of the line in slot
    /// `line_index`.
    pub fn get_line_possibility_count(&self, line_index: usize) -> (r: usize)
        requires
            self.wf(),
            line_index < self.total_lines(),
        ensures
            r == self.count_of(line_index as int),
    {
        self.possibility_count[line_index]
    }

    /// Refresh the cached arrangement count of the line in slot
    /// `line_index` from its strategy.
    pub fn update_possibility_count(&mut self, line_index: usize)
        requires
            old(self).wf(),
            line_index < old(self).total_lines(),
        ensures
            final(self).wf(),
            final(self).board_cells() == old(self).board_cells(),
            forall|l: int|
                0 <= l < final(self).total_lines() ==> #[trigger] final(self).count_of(l) == old(
                    self,
                ).count_of(l),
    {
        self.refresh_count(line_index);
        proof {
            assert forall|l: int| 0 <= l < self.total_lines() implies #[trigger] self.count_of(l)
                == old(self).count_of(l) by {
                if l == line_index {
                    assert(old(self).count_of(l) == old(self).cands_of(l).len());
                    assert(self.cands_of(l) == old(self).cands_of(l));
                }
            }
            assert forall|l: int| 0 <= l < self.total_lines() implies #[trigger] self.count_of(l)
                == self.cands_of(l).len() by {
                assert(self.cands_of(l) == old(self).cands_of(l));
                assert(old(self).count_of(l) == old(self).cands_of(l).len());
            }
            assert forall|l: int, i: int|
                0 <= l < self.total_lines() && !self.dirty(l) && #[trigger] self.cands_of(
                    l,
                ).contains(i) implies compatible(
                pattern_of(self.hint_of(l), self.len_of(l), i as nat),
                self.cells_of(l),
            ) by {
                assert(self.cands_of(l) == old(self).cands_of(l));
                assert(self.hint_of(l) == old(self).hint_of(l));
                assert(self.cells_of(l) == old(self).cells_of(l));
                assert(!old(self).dirty(l));
                assert(old(self).cands_of(l).contains(i));
            }
        }
    }

    /// Recompute one cached count; the only field that moves is the cache.
    fn refresh_count(&mut self, line_index: usize)
        requires
            old(self).wf_inner(),
            line_index < old(self).total_lines(),
        ensures
            final(self).wf_inner(),
            final(self).board == old(self).board,
            final(self).row_strategy == old(self).row_strategy,
            final(self).column_strategy == old(self).column_strategy,
            final(self).line_changed == old(self).line_changed,
            final(self).display == old(self).display,
            final(self).possibility_count@.len() == old(self).possibility_count@.len(),
            forall|l: int|
                0 <= l < final(self).total_lines() && l != line_index ==> #[trigger] final(self).count_of(l) == old(self).count_of(l),
            final(self).count_of(line_index as int) == final(self).cands_of(
                line_index as int,
            ).len(),
    {
        let rows = self.board.size().row;
        let c = if line_index < rows {
            self.row_strategy.get_line_possibility_count(line_index)
        } else {
            self.column_strategy.get_line_possibility_count(line_index - rows)
        };
        self.possibility_count.set(line_index, c);
        proof {
            assert(self.board == old(self).board);
            assert(self.row_strategy == old(self).row_strategy);
            assert(self.column_strategy == old(self).column_strategy);
            assert(self.line_changed == old(self).line_changed);
            assert(self.possibility_count@.len() == old(self).possibility_count@.len());
            assert(self.board_cells() == old(self).board_cells());
            assert(self.wf_inner());
        }
    }

    /// Read the board.
    pub fn board(&self) -> (r: &Board<Cell>)
        ensures
            r.cells() == self.board_cells(),
            r.rows() == self.rows(),
            r.cols() == self.cols(),
    {
        &self.board
    }

    /// Write the determined cells of a merged line into the board and mark
    /// the crossing line of every changed cell dirty.  Returns whether any
    /// cell changed.
    fn update_line(&mut self, line: Line, new_cells: &Vec<Cell>) -> (changed: bool)
        requires
            old(self).wf_inner(),
            old(self).line_in_range(line),
            new_cells@.len() == old(self).len_of(old(self).spec_line_index(line)),
            forall|p: int| 0 <= p < new_cells@.len() ==> is_board_cell(#[trigger] new_cells@[p]),
            forall|p: int|
                0 <= p < new_cells@.len() && is_determined(
                    #[trigger] old(self).cells_of(old(self).spec_line_index(line))[p],
                ) ==> (new_cells@[p] == Cell::Unknown || new_cells@[p] == old(self).cells_of(
                    old(self).spec_line_index(line),
                )[p]),
        ensures
            final(self).wf_inner(),
            final(self).rows() == old(self).rows(),
            final(self).cols() == old(self).cols(),
            final(self).row_strategy == old(self).row_strategy,
            final(self).column_strategy == old(self).column_strategy,
            final(self).possibility_count == old(self).possibility_count,
            final(self).display == old(self).display,
            // the solved line's cells after the write
            ({
                let l = old(self).spec_line_index(line);
                let len = old(self).len_of(l);
                let before = old(self).cells_of(l);
                &&& final(self).cells_of(l).len() == len
                &&& forall|p: int|
                    0 <= p < len ==> #[trigger] final(self).cells_of(l)[p] == (
                    if before[p] == Cell::Unknown && is_determined(new_cells@[p]) {
                        new_cells@[p]
                    } else {
                        before[p]
                    })
            }),
            // every other line of the same axis is untouched; crossing lines
            // are untouched where no cell of theirs changed
            ({
                let l = old(self).spec_line_index(line);
                let len = old(self).len_of(l);
                let before = old(self).cells_of(l);
                &&& forall|m: int|
                    0 <= m < old(self).total_lines() && m != l && same_axis(
                        old(self).rows(),
                        l,
                        m,
                    ) ==> #[trigger] final(self).cells_of(m) == old(self).cells_of(m)
                &&& forall|m: int|
                    0 <= m < old(self).total_lines() && !same_axis(old(self).rows(), l, m) && !(
                    #[trigger] final(self).dirty(m)) ==> final(self).cells_of(m) == old(
                        self,
                    ).cells_of(m)
                &&& forall|m: int|
                    0 <= m < old(self).total_lines() ==> ((#[trigger] final(self).dirty(m))
                        == old(self).dirty(m) || !same_axis(old(self).rows(), l, m))
                &&& forall|m: int|
                    0 <= m < old(self).total_lines() && old(self).dirty(m) ==> #[trigger] final(self).dirty(m)
                &&& forall|m: int|
                    0 <= m < old(self).total_lines() && !same_axis(old(self).rows(), l, m)
                        ==> ((#[trigger] final(self).dirty(m)) == (old(self).dirty(m) || (0
                        <= cross_position(old(self).rows(), l, m) < len && before[cross_position(
                        old(self).rows(),
                        l,
                        m,
                    )] == Cell::Unknown && is_determined(
                        new_cells@[cross_position(old(self).rows(), l, m)],
                    ))))
            }),
            // cells only become more determined
            final(self).board_cells().len() == old(self).board_cells().len(),
            forall|i: int|
                0 <= i < final(self).board_cells().len() && #[trigger] final(self).board_cells()[i]
                    == Cell::Unknown ==> old(self).board_cells()[i] == Cell::Unknown,
            forall|i: int|
                0 <= i < final(self).board_cells().len() && is_determined(
                    #[trigger] old(self).board_cells()[i],
                ) ==> final(self).board_cells()[i] == old(self).board_cells()[i],
            // reports exactly whether something changed
            changed == exists|p: int|
                0 <= p < new_cells@.len() && old(self).cells_of(old(self).spec_line_index(line))[p]
                    == Cell::Unknown && is_determined(#[trigger] new_cells@[p]),
            !changed ==> final(self).board_cells() == old(self).board_cells() && final(self).line_changed == old(self).line_changed,
            changed ==> count_unknown(final(self).board_cells()) < count_unknown(
                old(self).board_cells(),
            ),
    {
        let rows = self.board.size().row;
        let is_row = match line.direction() {
            LineDirection::Row => true,
            LineDirection::Column => false,
        };
        let lidx = line.index();
        let length = new_cells.len();
        let ghost l = old(self).spec_line_index(line);
        let ghost before = old(self).cells_of(l);
        let mut changed = false;
        let ghost wit: int = 0;

        let mut p: usize = 0;
        while p < length
            invariant
                self.wf_inner(),
                old(self).wf_inner(),
                rows == self.rows(),
                self.rows() == old(self).rows(),
                self.cols() == old(self).cols(),
                self.row_strategy == old(self).row_strategy,
                self.column_strategy == old(self).column_strategy,
                self.possibility_count == old(self).possibility_count,
                self.display == old(self).display,
                old(self).line_in_range(line),
                is_row == (line.spec_direction() is Row),
                lidx == line.spec_index(),
                l == old(self).spec_line_index(line),
                length == new_cells@.len(),
                length == old(self).len_of(l),
                before == old(self).cells_of(l),
                forall|q: int| 0 <= q < length ==> is_board_cell(#[trigger] new_cells@[q]),
                forall|q: int|
                    0 <= q < length && is_determined(#[trigger] before[q]) ==> (new_cells@[q]
                        == Cell::Unknown || new_cells@[q] == before[q]),
                p <= length,
                // the written prefix
                self.cells_of(l).len() == length,
                forall|q: int|
                    0 <= q < p ==> #[trigger] self.cells_of(l)[q] == (
                    if before[q] == Cell::Unknown && is_determined(new_cells@[q]) {
                        new_cells@[q]
                    } else {
                        before[q]
                    }),
                forall|q: int| p <= q < length ==> #[trigger] self.cells_of(l)[q] == before[q],
                // frame over the rest of the board
                forall|m: int|
                    0 <= m < self.total_lines() && m != l && same_axis(self.rows(), l, m)
                        ==> #[trigger] self.cells_of(m) == old(self).cells_of(m),
                forall|m: int|
                    0 <= m < self.total_lines() && !same_axis(self.rows(), l, m) && !(
                    #[trigger] self.dirty(m)) ==> self.cells_of(m) == old(self).cells_of(m),
                forall|m: int|
                    0 <= m < self.total_lines() ==> ((#[trigger] self.dirty(m)) == old(
                        self,
                    ).dirty(m) || !same_axis(self.rows(), l, m)),
                forall|m: int|
                    0 <= m < self.total_lines() && old(self).dirty(m) ==> #[trigger] self.dirty(m),
                forall|m: int|
                    0 <= m < self.total_lines() && !same_axis(self.rows(), l, m) ==> ((
                    #[trigger] self.dirty(m)) == (old(self).dirty(m) || (0 <= cross_position(
                        self.rows(),
                        l,
                        m,
                    ) < p && before[cross_position(self.rows(), l, m)] == Cell::Unknown
                        && is_determined(new_cells@[cross_position(self.rows(), l, m)])))),
                self.board_cells().len() == old(self).board_cells().len(),
                forall|i: int|
                    0 <= i < self.board_cells().len() && #[trigger] self.board_cells()[i]
                        == Cell::Unknown ==> old(self).board_cells()[i] == Cell::Unknown,
                forall|i: int|
                    0 <= i < self.board_cells().len() && is_determined(
                        #[trigger] old(self).board_cells()[i],
                    ) ==> self.board_cells()[i] == old(self).board_cells()[i],
                changed == exists|q: int|
                    0 <= q < p && before[q] == Cell::Unknown && is_determined(
                        #[trigger] new_cells@[q],
                    ),
                changed ==> 0 <= wit < length && before[wit] == Cell::Unknown && self.cells_of(
                    l,
                )[wit] != Cell::Unknown,
                !changed ==> *self == *old(self),
            decreases length - p,
        {
            let m = new_cells[p];
            if matches!(m, Cell::Block) || matches!(m, Cell::Blank) {
                let pos = if is_row {
                    Vec2 { row: lidx, column: p }
                } else {
                    Vec2 { row: p, column: lidx }
                };
                let cur = *self.board.value(pos);
                proof {
                    assert(cur == self.cells_of(l)[p as int]);
                }
                if cur == Cell::Unknown {
                    let ghost prev = *self;
                    let slot = self.board.value_mut(pos);
                    *slot = m;
                    // the crossing line must be revisited
                    let cross = if is_row {
                        rows + p
                    } else {
                        p
                    };
                    let ghost mid = *self;
                    self.line_changed.set(cross, true);
                    changed = true;
                    proof {
                        wit = p as int;
                        let wr = pos.row as int;
                        let wc = pos.column as int;
                        crate::board::lemma_board_update(
                            &prev.board,
                            &mid.board,
                            wr,
                            wc,
                            m,
                        );
                        crate::board::lemma_row_major_index_bounds(
                            prev.rows(),
                            prev.cols(),
                            wr,
                            wc,
                        );
                        assert forall|m2: int|
                            0 <= m2 < self.total_lines() && m2 != l && same_axis(
                                self.rows(),
                                l,
                                m2,
                            ) implies #[trigger] self.cells_of(m2) == prev.cells_of(m2) by {
                            if is_row {
                                assert(mid.board.row_seq(m2) == prev.board.row_seq(m2));
                            } else {
                                assert(mid.board.col_seq(m2 - mid.rows()) == prev.board.col_seq(
                                    m2 - prev.rows(),
                                ));
                            }
                        }
                        assert forall|m2: int|
                            0 <= m2 < self.total_lines() && !same_axis(self.rows(), l, m2) && m2
                                != cross implies #[trigger] self.cells_of(m2) == prev.cells_of(
                            m2,
                        ) by {
                            if is_row {
                                assert(mid.board.col_seq(m2 - mid.rows()) == prev.board.col_seq(
                                    m2 - prev.rows(),
                                ));
                            } else {
                                assert(mid.board.row_seq(m2) == prev.board.row_seq(m2));
                            }
                        }
                        assert(self.cells_of(l) =~= prev.cells_of(l).update(p as int, m));
                        assert(self.line_changed@ == prev.line_changed@.update(
                            cross as int,
                            true,
                        ));
                        assert(self.dirty(cross as int));
                        assert(!same_axis(self.rows(), l, cross as int));
                        assert forall|m2: int|
                            0 <= m2 < self.total_lines() implies #[trigger] self.dirty(m2) == (m2
                            == cross as int || prev.dirty(m2)) by {
                            if m2 != cross as int {
                                assert(self.line_changed@[m2] == prev.line_changed@[m2]);
                            }
                        }
                        assert forall|m2: int|
                            0 <= m2 < self.total_lines() && !same_axis(self.rows(), l, m2) && !(
                            #[trigger] self.dirty(m2)) implies self.cells_of(m2) == old(
                            self,
                        ).cells_of(m2) by {
                            assert(m2 != cross as int);
                            assert(!prev.dirty(m2));
                            assert(self.cells_of(m2) == prev.cells_of(m2));
                            assert(prev.cells_of(m2) == old(self).cells_of(m2));
                        }
                        assert forall|m2: int|
                            0 <= m2 < self.total_lines() && old(self).dirty(m2) implies #[trigger]
                        self.dirty(m2) by {
                            if m2 != cross as int {
                                assert(prev.dirty(m2));
                            }
                        }
                        assert(cross_position(self.rows(), l, cross as int) == p as int);
                        assert forall|m2: int|
                            0 <= m2 < self.total_lines() && !same_axis(
                                self.rows(),
                                l,
                                m2,
                            ) implies ((#[trigger] self.dirty(m2)) == (old(self).dirty(m2) || (0
                            <= cross_position(self.rows(), l, m2) < p + 1 && before[
                        cross_position(self.rows(), l, m2)] == Cell::Unknown && is_determined(
                            new_cells@[cross_position(self.rows(), l, m2)],
                        )))) by {
                            if m2 != cross as int {
                                assert(self.dirty(m2) == prev.dirty(m2));
                                assert(cross_position(self.rows(), l, m2) != p as int);
                            }
                        }
                    }
                }
            }
            p = p + 1;
        }
        proof {
            if changed {
                let g = if l < old(self).rows() {
                    l * old(self).cols() + wit
                } else {
                    wit * old(self).cols() + (l - old(self).rows())
                };
                if l < old(self).rows() {
                    crate::board::lemma_row_major_index_bounds(
                        old(self).rows(),
                        old(self).cols(),
                        l,
                        wit,
                    );
                } else {
                    crate::board::lemma_row_major_index_bounds(
                        old(self).rows(),
                        old(self).cols(),
                        wit,
                        l - old(self).rows(),
                    );
                }
                assert(old(self).board_cells()[g] == old(self).cells_of(l)[wit]);
                assert(self.board_cells()[g] == self.cells_of(l)[wit]);
                lemma_count_unknown_lt(old(self).board_cells(), self.board_cells(), g);
            }
        }
        changed
    }

    /// Like `lines_consistent`, but with one line excused: the line about to
    /// be solved.
    pub open spec fn consistent_except(&self, e: int) -> bool {
        forall|l: int, i: int|
            0 <= l < self.total_lines() && l != e && !self.dirty(l)
                && #[trigger] self.cands_of(l).contains(i) ==> compatible(
                pattern_of(self.hint_of(l), self.len_of(l), i as nat),
                self.cells_of(l),
            )
    }

    /// Solve one line: prune its arrangements against its cells, write the
    /// forced cells back, and mark the crossing line of every change dirty.
    /// An empty surviving set is a contradiction: the line is marked dirty
    /// again, nothing else moves, and the error carries the line's state.
    pub fn solve_line(&mut self, line: Line) -> (r: Result<(), SolverError>)
        requires
            old(self).wf_inner(),
            old(self).counts_ok(),
            old(self).line_in_range(line),
            old(self).consistent_except(old(self).spec_line_index(line)),
        ensures
            final(self).wf(),
            final(self).rows() == old(self).rows(),
            final(self).cols() == old(self).cols(),
            final(self).total_lines() == old(self).total_lines(),
            forall|l: int|
                0 <= l < old(self).total_lines() ==> #[trigger] final(self).hint_of(l) == old(
                    self,
                ).hint_of(l),
            // cells only become more determined
            final(self).board_cells().len() == old(self).board_cells().len(),
            forall|i: int|
                0 <= i < final(self).board_cells().len() && #[trigger] final(self).board_cells()[i]
                    == Cell::Unknown ==> old(self).board_cells()[i] == Cell::Unknown,
            forall|i: int|
                0 <= i < final(self).board_cells().len() && is_determined(
                    #[trigger] old(self).board_cells()[i],
                ) ==> final(self).board_cells()[i] == old(self).board_cells()[i],
            // the viable sets only shrink
            forall|l: int|
                0 <= l < old(self).total_lines() ==> #[trigger] final(self).count_of(l) <= old(
                    self,
                ).count_of(l),
            // either progress was made on the board, or nothing moved
            r is Ok ==> (count_unknown(final(self).board_cells()) < count_unknown(
                old(self).board_cells(),
            ) || (final(self).board_cells() == old(self).board_cells() && final(self).dirty_count()
                == old(self).dirty_count())),
            // dirtiness only grows
            forall|l: int|
                0 <= l < old(self).total_lines() && old(self).dirty(l) ==> #[trigger] final(self).dirty(l),
            r is Err ==> final(self).board_cells() == old(self).board_cells(),
            // failure is owed to a real contradiction: the solved line keeps
            // no arrangement compatible with its cells
            r is Err ==> ({
                let l = old(self).spec_line_index(line);
                survivors(
                    final(self).cands_of(l),
                    final(self).hint_of(l),
                    final(self).len_of(l),
                    final(self).cells_of(l),
                ) == Set::<int>::empty()
            }),
            // on success: the viable set is pruned to exactly the survivors,
            // the solved line's cells become the forced merge of those
            // survivors, no other line's cells move, and exactly the
            // crossing lines of changed cells are newly marked dirty
            r is Ok ==> ({
                let l = old(self).spec_line_index(line);
                let hint = old(self).hint_of(l);
                let len = old(self).len_of(l);
                let surv = final(self).cands_of(l);
                &&& surv == survivors(
                    old(self).cands_of(l),
                    hint,
                    len,
                    old(self).cells_of(l),
                )
                &&& forall|p: int|
                    0 <= p < len ==> #[trigger] final(self).cells_of(l)[p] == (if old(
                        self,
                    ).cells_of(l)[p] == Cell::Unknown && all_place(surv, hint, len, p, Cell::Block) {
                        Cell::Block
                    } else if old(self).cells_of(l)[p] == Cell::Unknown && all_place(
                        surv,
                        hint,
                        len,
                        p,
                        Cell::Blank,
                    ) {
                        Cell::Blank
                    } else {
                        old(self).cells_of(l)[p]
                    })
                &&& forall|m: int|
                    0 <= m < old(self).total_lines() && m != l && same_axis(
                        old(self).rows(),
                        l,
                        m,
                    ) ==> #[trigger] final(self).cells_of(m) == old(self).cells_of(m)
                &&& forall|m: int|
                    0 <= m < old(self).total_lines() && same_axis(old(self).rows(), l, m)
                        ==> #[trigger] final(self).dirty(m) == old(self).dirty(m)
                &&& forall|m: int|
                    0 <= m < old(self).total_lines() && !same_axis(old(self).rows(), l, m)
                        ==> #[trigger] final(self).dirty(m) == (old(self).dirty(m) || (0
                        <= cross_position(old(self).rows(), l, m) < len && old(self).cells_of(l)[
                    cross_position(old(self).rows(), l, m)] == Cell::Unknown && is_determined(
                        final(self).cells_of(l)[cross_position(old(self).rows(), l, m)],
                    )))
            }),
    {
        let gidx = self.line_to_index(line);
        let line_cells = self.get_line_cells(line);
        let ghost l = self.spec_line_index(line);
        let ghost before_cells = self.cells_of(l);
        let is_row = match line.direction() {
            LineDirection::Row => true,
            LineDirection::Column => false,
        };
        let ghost prev = *self;

        let merged_res = if is_row {
            self.row_strategy.solve_line(line.index(), &line_cells, &mut self.display)
        } else {
            self.column_strategy.solve_line(line.index(), &line_cells, &mut self.display)
        };
        proof {
            // only one strategy and the display moved
            assert(self.board == prev.board);
            assert(self.line_changed == prev.line_changed);
            assert(self.possibility_count == prev.possibility_count);
            assert forall|m2: int|
                0 <= m2 < self.total_lines() && m2 != l implies #[trigger] self.cands_of(m2)
                == prev.cands_of(m2) by {}
            assert forall|m2: int|
                0 <= m2 < self.total_lines() implies #[trigger] self.hint_of(m2) == prev.hint_of(
                m2,
            ) by {}
            prev.row_strategy.lemma_wf_facts();
            prev.column_strategy.lemma_wf_facts();
        }

        let merged = match merged_res {
            Ok(m) => m,
            Err(msg) => {
                // a contradiction: the line stays dirty, nothing is pruned
                let hint = if is_row {
                    self.row_strategy.get_hint(line.index())
                } else {
                    self.column_strategy.get_hint(line.index())
                };
                let ghost prev2 = *self;
                self.line_changed.set(gidx, true);
                proof {
                    assert forall|m2: int, i: int|
                        0 <= m2 < self.total_lines() && !self.dirty(m2)
                            && #[trigger] self.cands_of(m2).contains(i) implies compatible(
                        pattern_of(self.hint_of(m2), self.len_of(m2), i as nat),
                        self.cells_of(m2),
                    ) by {
                        assert(m2 != l);
                        assert(!prev2.dirty(m2) && !old(self).dirty(m2));
                        assert(self.cands_of(m2) == old(self).cands_of(m2));
                        assert(self.cells_of(m2) == old(self).cells_of(m2));
                        assert(self.hint_of(m2) == old(self).hint_of(m2));
                    }
                    assert(self.possibility_count == prev2.possibility_count);
                    assert(prev2.possibility_count == prev.possibility_count);
                    assert(prev.possibility_count == old(self).possibility_count);
                    assert forall|m2: int|
                        0 <= m2 < self.total_lines() implies #[trigger] self.count_of(m2) == old(
                        self,
                    ).count_of(m2) && self.count_of(m2) == self.cands_of(m2).len() by {
                        assert(self.count_of(m2) == old(self).count_of(m2));
                        assert(old(self).count_of(m2) == old(self).cands_of(m2).len());
                        assert(self.cands_of(m2) == old(self).cands_of(m2));
                    }
                }
                proof {
                    assert(self.cells_of(l) == old(self).cells_of(l));
                    assert(self.cells_of(l) == line_cells@);
                    assert(self.cands_of(l) == prev.cands_of(l));
                    assert(self.hint_of(l) == prev.hint_of(l));
                    assert(survivors(
                        self.cands_of(l),
                        self.hint_of(l),
                        self.len_of(l),
                        self.cells_of(l),
                    ) =~= Set::<int>::empty());
                }
                return Err(
                    SolverError::InvalidSolvingState(
                        SolvingError {
                            current_line: line_cells,
                            calculating_line: Vec::new(),
                            hint,
                            error_line: line,
                            message: msg.to_owned(),
                        },
                    ),
                );
            },
        };

        let ghost mid = *self;
        proof {
            // the merged pattern can be written back safely
            assert(mid.cands_of(l) == survivors(
                prev.cands_of(l),
                prev.hint_of(l),
                prev.len_of(l),
                line_cells@,
            ));
            assert(merged_ok(merged@, mid.cands_of(l), prev.hint_of(l), prev.len_of(l)));
            lemma_merged_writable(
                merged@,
                mid.cands_of(l),
                prev.cands_of(l),
                prev.hint_of(l),
                prev.len_of(l),
                line_cells@,
            );
        }
        let _changed = self.update_line(line, &merged);
        let ghost written = *self;
        self.refresh_count(gidx);
        proof {
            let length = prev.len_of(l);
            let hint = prev.hint_of(l);
            let surv = mid.cands_of(l);
            // the viable sets did not move after the strategy pruned them
            assert forall|m2: int| 0 <= m2 < self.total_lines() implies #[trigger] self.cands_of(
                m2,
            ) == mid.cands_of(m2) && self.hint_of(m2) == mid.hint_of(m2) by {}
            // counts: the solved line was refreshed, the others kept their sets
            assert forall|m2: int| 0 <= m2 < self.total_lines() implies #[trigger] self.count_of(
                m2,
            ) == self.cands_of(m2).len() by {
                if m2 != l {
                    assert(self.count_of(m2) == prev.count_of(m2));
                    assert(prev.count_of(m2) == prev.cands_of(m2).len());
                    assert(self.cands_of(m2) == prev.cands_of(m2));
                }
            }
            // the solved line's new cells agree with every survivor
            assert forall|i: int|
                #[trigger] self.cands_of(l).contains(i) implies compatible(
                pattern_of(hint, length, i as nat),
                self.cells_of(l),
            ) by {
                assert(surv.contains(i));
                assert(prev.cands_of(l).contains(i));
                assert(compatible(pattern_of(hint, length, i as nat), line_cells@));
                crate::line_pattern::lemma_pattern_matches_hint(hint, length, i as nat);
                let pat = pattern_of(hint, length, i as nat);
                assert forall|q: int| 0 <= q < self.cells_of(l).len() implies spec_merge(
                    pat[q],
                    #[trigger] self.cells_of(l)[q],
                ) != Cell::Crash by {
                    let newv = self.cells_of(l)[q];
                    assert(newv == if line_cells@[q] == Cell::Unknown && is_determined(
                        merged@[q],
                    ) {
                        merged@[q]
                    } else {
                        line_cells@[q]
                    });
                    if line_cells@[q] == Cell::Unknown && is_determined(merged@[q]) {
                        assert(all_place(surv, hint, length, q, merged@[q]));
                        assert(pat[q] == merged@[q]);
                    } else {
                        assert(spec_merge(pat[q], line_cells@[q]) != Cell::Crash);
                    }
                }
            }
            // every other line that is clean kept both its cells and its sets
            assert forall|m2: int, i: int|
                0 <= m2 < self.total_lines() && m2 != l && !self.dirty(m2)
                    && #[trigger] self.cands_of(m2).contains(i) implies compatible(
                pattern_of(self.hint_of(m2), self.len_of(m2), i as nat),
                self.cells_of(m2),
            ) by {
                assert(!written.dirty(m2));
                assert(!mid.dirty(m2) && !prev.dirty(m2) && !old(self).dirty(m2));
                assert(self.cells_of(m2) == written.cells_of(m2));
                if same_axis(prev.rows(), l, m2) {
                    assert(written.cells_of(m2) == mid.cells_of(m2));
                } else {
                    assert(written.cells_of(m2) == mid.cells_of(m2));
                }
                assert(mid.cells_of(m2) == prev.cells_of(m2));
                assert(self.cands_of(m2) == prev.cands_of(m2));
                assert(prev.cands_of(m2).contains(i));
                assert(compatible(
                    pattern_of(prev.hint_of(m2), prev.len_of(m2), i as nat),
                    prev.cells_of(m2),
                ));
            }
            // the pruned set is a subset of what it was
            assert forall|m2: int| 0 <= m2 < self.total_lines() implies #[trigger] self.count_of(
                m2,
            ) <= old(self).count_of(m2) by {
                if m2 == l {
                    assert(surv.subset_of(prev.cands_of(l)));
                    vstd::set_lib::lemma_len_subset(surv, prev.cands_of(l));
                    assert(self.count_of(l) == surv.len());
                } else {
                    assert(self.count_of(m2) == prev.count_of(m2));
                }
            }
            assert forall|m2: int|
                0 <= m2 < self.total_lines() && old(self).dirty(m2) implies #[trigger] self.dirty(
                m2,
            ) by {
                assert(mid.dirty(m2));
                assert(written.dirty(m2));
                assert(self.dirty(m2));
            }
            // the written line is the forced merge of its survivors
            assert forall|p: int| 0 <= p < length implies #[trigger] self.cells_of(l)[p] == (if old(
                self,
            ).cells_of(l)[p] == Cell::Unknown && all_place(surv, hint, length, p, Cell::Block) {
                Cell::Block
            } else if old(self).cells_of(l)[p] == Cell::Unknown && all_place(
                surv,
                hint,
                length,
                p,
                Cell::Blank,
            ) {
                Cell::Blank
            } else {
                old(self).cells_of(l)[p]
            }) by {
                assert(self.cells_of(l)[p] == written.cells_of(l)[p]);
                assert(written.cells_of(l)[p] == (if line_cells@[p] == Cell::Unknown
                    && is_determined(merged@[p]) {
                    merged@[p]
                } else {
                    line_cells@[p]
                }));
                assert(line_cells@[p] == old(self).cells_of(l)[p]);
                assert(merged@[p] == Cell::Block <==> all_place(surv, hint, length, p, Cell::Block));
                assert(merged@[p] == Cell::Blank <==> all_place(surv, hint, length, p, Cell::Blank));
            }
            // no other line's cells move
            assert forall|m2: int|
                0 <= m2 < self.total_lines() && m2 != l && same_axis(
                    old(self).rows(),
                    l,
                    m2,
                ) implies #[trigger] self.cells_of(m2) == old(self).cells_of(m2) by {
                assert(self.cells_of(m2) == written.cells_of(m2));
                assert(written.cells_of(m2) == mid.cells_of(m2));
                assert(mid.cells_of(m2) == old(self).cells_of(m2));
            }
            // dirtiness moves exactly at the crossing lines of changed cells
            assert forall|m2: int|
                0 <= m2 < self.total_lines() && same_axis(old(self).rows(), l, m2) implies
                #[trigger] self.dirty(m2) == old(self).dirty(m2) by {
                assert(self.dirty(m2) == written.dirty(m2));
                assert(mid.dirty(m2) == old(self).dirty(m2));
            }
            assert forall|m2: int|
                0 <= m2 < self.total_lines() && !same_axis(old(self).rows(), l, m2) implies
                #[trigger] self.dirty(m2) == (old(self).dirty(m2) || (0 <= cross_position(
                    old(self).rows(),
                    l,
                    m2,
                ) < length && old(self).cells_of(l)[cross_position(old(self).rows(), l, m2)]
                    == Cell::Unknown && is_determined(
                    self.cells_of(l)[cross_position(old(self).rows(), l, m2)],
                ))) by {
                let cp = cross_position(old(self).rows(), l, m2);
                assert(self.dirty(m2) == written.dirty(m2));
                assert(written.dirty(m2) == (mid.dirty(m2) || (0 <= cp < length && line_cells@[cp]
                    == Cell::Unknown && is_determined(merged@[cp]))));
                assert(mid.dirty(m2) == old(self).dirty(m2));
                if 0 <= cp < length {
                    assert(line_cells@[cp] == old(self).cells_of(l)[cp]);
                    assert(self.cells_of(l)[cp] == written.cells_of(l)[cp]);
                    if line_cells@[cp] == Cell::Unknown && is_determined(merged@[cp]) {
                        assert(written.cells_of(l)[cp] == merged@[cp]);
                    } else if line_cells@[cp] == Cell::Unknown {
                        assert(written.cells_of(l)[cp] == line_cells@[cp]);
                    }
                }
            }
            assert(self.wf());
        }
        Ok(())
    }

    /// The dirty line with the fewest viable arrangements, unmarked, or
    /// `None` when no line is dirty.
    fn next_line_pop(&mut self) -> (r: Option<Line>)
        requires
            old(self).wf(),
        ensures
            final(self).wf_inner(),
            final(self).counts_ok(),
            r is None ==> *final(self) == *old(self) && old(self).quiescent(),
            r matches Some(line) ==> ({
                let g = old(self).spec_line_index(line);
                &&& final(self).board == old(self).board
                &&& final(self).row_strategy == old(self).row_strategy
                &&& final(self).column_strategy == old(self).column_strategy
                &&& final(self).possibility_count == old(self).possibility_count
                &&& final(self).display == old(self).display
                &&& old(self).line_in_range(line)
                &&& final(self).line_in_range(line)
                &&& g == final(self).spec_line_index(line)
                &&& old(self).dirty(g)
                &&& !final(self).dirty(g)
                &&& final(self).consistent_except(g)
                &&& final(self).board_cells() == old(self).board_cells()
                &&& final(self).dirty_count() == old(self).dirty_count() - 1
                &&& forall|m: int|
                    0 <= m < old(self).total_lines() && m != g ==> #[trigger] final(self).dirty(m)
                        == old(self).dirty(m)
                &&& forall|m: int|
                    0 <= m < old(self).total_lines() ==> #[trigger] final(self).count_of(m) == old(
                        self,
                    ).count_of(m) && final(self).cands_of(m) == old(self).cands_of(m)
                        && final(self).hint_of(m) == old(self).hint_of(m)
                // the chosen line has the fewest viable arrangements
                &&& forall|m: int|
                    0 <= m < old(self).total_lines() && old(self).dirty(m) ==> old(self).count_of(
                        g,
                    ) <= #[trigger] old(self).count_of(m)
            }),
    {
        let rows = self.board.size().row;
        let total = self.possibility_count.len();
        let mut best: usize = 0;
        let mut found = false;
        let mut scan: usize = 0;
        while scan < total
            invariant
                self.wf(),
                rows == self.rows(),
                total == self.total_lines(),
                scan <= total,
                found ==> best < scan && self.dirty(best as int),
                found ==> forall|m: int|
                    0 <= m < scan && self.dirty(m) ==> self.count_of(best as int)
                        <= #[trigger] self.count_of(m),
                !found ==> forall|m: int| 0 <= m < scan ==> !(#[trigger] self.dirty(m)),
            decreases total - scan,
        {
            if self.line_changed[scan] {
                if !found || self.possibility_count[scan] < self.possibility_count[best] {
                    best = scan;
                }
                found = true;
            }
            scan = scan + 1;
        }
        if !found {
            return None;
        }
        let line = if best < rows {
            Line::new(LineDirection::Row, best)
        } else {
            Line::new(LineDirection::Column, best - rows)
        };
        let ghost prev = *self;
        self.line_changed.set(best, false);
        proof {
            assert(self.board == prev.board);
            assert(self.board_cells() == prev.board_cells());
            assert(self.row_strategy == prev.row_strategy);
            assert(self.column_strategy == prev.column_strategy);
            assert(self.possibility_count == prev.possibility_count);
            assert(self.wf_inner());
            lemma_count_trues_update(prev.line_changed@, best as int, false);
            assert forall|m2: int| 0 <= m2 < self.total_lines() implies #[trigger] self.count_of(
                m2,
            ) == self.cands_of(m2).len() && self.count_of(m2) == prev.count_of(m2)
                && self.cands_of(m2) == prev.cands_of(m2) && self.hint_of(m2) == prev.hint_of(
                m2,
            ) by {
                assert(prev.count_of(m2) == prev.cands_of(m2).len());
            }
            assert forall|m2: int, i: int|
                0 <= m2 < self.total_lines() && m2 != best as int && !self.dirty(m2)
                    && #[trigger] self.cands_of(m2).contains(i) implies compatible(
                pattern_of(self.hint_of(m2), self.len_of(m2), i as nat),
                self.cells_of(m2),
            ) by {
                assert(self.line_changed@[m2] == prev.line_changed@[m2]);
                assert(!prev.dirty(m2));
                assert(prev.cands_of(m2).contains(i));
                assert(self.cells_of(m2) == prev.cells_of(m2));
            }
        }
        Some(line)
    }

    /// The dirty lines, cheapest first: what the display shows as waiting.
    pub fn line_order(&self) -> (r: Vec<Line>)
        requires
            self.wf_inner(),
        ensures
            forall|k: int|
                0 <= k < r@.len() ==> self.line_in_range(#[trigger] r@[k]) && self.dirty(
                    self.spec_line_index(r@[k]),
                ),
            forall|k1: int, k2: int|
                0 <= k1 <= k2 < r@.len() ==> self.count_of(
                    self.spec_line_index(#[trigger] r@[k1]),
                ) <= self.count_of(self.spec_line_index(#[trigger] r@[k2])),
            // every dirty line appears, and no line appears twice
            forall|m: int|
                0 <= m < self.total_lines() && #[trigger] self.dirty(m) ==> exists|k: int|
                    0 <= k < r@.len() && self.spec_line_index(#[trigger] r@[k]) == m,
            forall|k1: int, k2: int|
                0 <= k1 < k2 < r@.len() ==> self.spec_line_index(#[trigger] r@[k1])
                    != self.spec_line_index(#[trigger] r@[k2]),
    {
        let rows = self.board.size().row;
        let total = self.possibility_count.len();
        let mut taken: Vec<bool> = Vec::new();
        let mut scan: usize = 0;
        while scan < total
            invariant
                scan <= total,
                taken@.len() == scan,
                forall|m: int| 0 <= m < scan ==> !(#[trigger] taken@[m]),
            decreases total - scan,
        {
            taken.push(false);
            scan = scan + 1;
        }
        let mut order: Vec<Line> = Vec::new();
        let mut round: usize = 0;
        let mut all_listed = false;
        proof {
            lemma_count_trues_none(taken@);
        }
        while round < total && !all_listed
            invariant
                self.wf_inner(),
                round <= total,
                order@.len() == round,
                rows == self.rows(),
                total == self.total_lines(),
                taken@.len() == total,
                count_trues(taken@) == round,
                forall|k: int|
                    0 <= k < order@.len() ==> self.line_in_range(#[trigger] order@[k])
                        && self.dirty(self.spec_line_index(order@[k])),
                forall|k1: int, k2: int|
                    0 <= k1 <= k2 < order@.len() ==> self.count_of(
                        self.spec_line_index(#[trigger] order@[k1]),
                    ) <= self.count_of(self.spec_line_index(#[trigger] order@[k2])),
                // everything not yet taken costs at least as much as what was
                forall|k: int, m: int|
                    0 <= k < order@.len() && 0 <= m < total && self.dirty(m) && !taken@[m]
                        ==> self.count_of(self.spec_line_index(#[trigger] order@[k]))
                        <= #[trigger] self.count_of(m),
                // the flags mirror what the list holds
                forall|k: int|
                    0 <= k < order@.len() ==> taken@[self.spec_line_index(#[trigger] order@[k])],
                forall|m: int|
                    0 <= m < total && #[trigger] taken@[m] ==> exists|k: int|
                        0 <= k < order@.len() && self.spec_line_index(#[trigger] order@[k]) == m,
                forall|k1: int, k2: int|
                    0 <= k1 < k2 < order@.len() ==> self.spec_line_index(#[trigger] order@[k1])
                        != self.spec_line_index(#[trigger] order@[k2]),
                all_listed ==> forall|m: int|
                    0 <= m < total && #[trigger] self.dirty(m) ==> taken@[m],
                order@.len() <= total,
            decreases total - round + (if all_listed {
                0int
            } else {
                1int
            }),
        {
            let mut best: usize = 0;
            let mut found = false;
            let mut scan2: usize = 0;
            while scan2 < total
                invariant
                    self.wf_inner(),
                    total == self.total_lines(),
                    taken@.len() == total,
                    scan2 <= total,
                    found ==> best < total && self.dirty(best as int) && !taken@[best as int],
                    found ==> forall|m: int|
                        0 <= m < scan2 && self.dirty(m) && !taken@[m] ==> self.count_of(
                            best as int,
                        ) <= #[trigger] self.count_of(m),
                    !found ==> forall|m: int|
                        0 <= m < scan2 ==> !(#[trigger] self.dirty(m)) || taken@[m],
                decreases total - scan2,
            {
                if self.line_changed[scan2] && !taken[scan2] {
                    if !found || self.possibility_count[scan2] < self.possibility_count[best] {
                        best = scan2;
                    }
                    found = true;
                }
                scan2 = scan2 + 1;
            }
            if !found {
                all_listed = true;
            } else {
                let line = if best < rows {
                    Line::new(LineDirection::Row, best)
                } else {
                    Line::new(LineDirection::Column, best - rows)
                };
                let ghost taken_prev = taken@;
                let ghost order_prev = order@;
                taken.set(best, true);
                order.push(line);
                round = round + 1;
                proof {
                    lemma_count_trues_update(taken_prev, best as int, true);
                    assert(self.spec_line_index(line) == best as int);
                    assert forall|m: int|
                        0 <= m < total && #[trigger] taken@[m] implies exists|k: int|
                        0 <= k < order@.len() && self.spec_line_index(#[trigger] order@[k])
                            == m by {
                        if m == best as int {
                            assert(self.spec_line_index(order@[order@.len() - 1]) == m);
                        } else {
                            assert(taken_prev[m]);
                            let k0 = choose|k: int|
                                0 <= k < order_prev.len() && self.spec_line_index(
                                    #[trigger] order_prev[k],
                                ) == m;
                            assert(self.spec_line_index(order@[k0]) == m);
                        }
                    }
                    assert forall|k1: int, k2: int|
                        0 <= k1 < k2 < order@.len() implies self.spec_line_index(
                        #[trigger] order@[k1],
                    ) != self.spec_line_index(#[trigger] order@[k2]) by {
                        if k2 == order@.len() - 1 {
                            assert(taken_prev[self.spec_line_index(order@[k1])]);
                            assert(!taken_prev[best as int]);
                        }
                    }
                }
            }
        }
        proof {
            if !all_listed {
                // every slot was taken: the list holds every line once
                assert(count_trues(taken@) == taken@.len());
                lemma_count_trues_full(taken@);
            }
            assert forall|m: int|
                0 <= m < self.total_lines() && #[trigger] self.dirty(m) implies exists|k: int|
                0 <= k < order@.len() && self.spec_line_index(#[trigger] order@[k]) == m by {
                assert(taken@[m]);
            }
        }
        order
    }

    /// Run line solving until no line is dirty.  On success the board may
    /// still hold unknown cells (the puzzle then needs guessing, which this
    /// solver does not do); when it holds none, every row and column of the
    /// board matches its hint.
    pub fn solve(&mut self) -> (r: Result<(), SolverError>)
        requires
            old(self).wf(),
        ensures
            final(self).wf_inner(),
            final(self).rows() == old(self).rows(),
            final(self).cols() == old(self).cols(),
            forall|l: int|
                0 <= l < old(self).total_lines() ==> #[trigger] final(self).hint_of(l) == old(
                    self,
                ).hint_of(l),
            // cells only ever become more determined
            final(self).board_cells().len() == old(self).board_cells().len(),
            forall|i: int|
                0 <= i < final(self).board_cells().len() && #[trigger] final(self).board_cells()[i]
                    == Cell::Unknown ==> old(self).board_cells()[i] == Cell::Unknown,
            forall|i: int|
                0 <= i < final(self).board_cells().len() && is_determined(
                    #[trigger] old(self).board_cells()[i],
                ) ==> final(self).board_cells()[i] == old(self).board_cells()[i],
            r is Ok ==> final(self).wf() && final(self).quiescent(),
            r is Ok && final(self).spec_solved() ==> final(self).board_matches_hints(),
            // failure is owed to a real contradiction: some line keeps no
            // arrangement compatible with its cells
            r is Err ==> exists|l: int|
                0 <= l < final(self).total_lines() && survivors(
                    #[trigger] final(self).cands_of(l),
                    final(self).hint_of(l),
                    final(self).len_of(l),
                    final(self).cells_of(l),
                ) == Set::<int>::empty(),
    {
        let mut more = true;
        while more
            invariant
                self.wf(),
                self.rows() == old(self).rows(),
                self.cols() == old(self).cols(),
                forall|l: int|
                    0 <= l < old(self).total_lines() ==> #[trigger] self.hint_of(l) == old(
                        self,
                    ).hint_of(l),
                self.board_cells().len() == old(self).board_cells().len(),
                forall|i: int|
                    0 <= i < self.board_cells().len() && #[trigger] self.board_cells()[i]
                        == Cell::Unknown ==> old(self).board_cells()[i] == Cell::Unknown,
                forall|i: int|
                    0 <= i < self.board_cells().len() && is_determined(
                        #[trigger] old(self).board_cells()[i],
                    ) ==> self.board_cells()[i] == old(self).board_cells()[i],
                !more ==> self.quiescent(),
            decreases count_unknown(self.board_cells()) * (self.total_lines() + 1)
                + self.dirty_count() + (if more {
                1int
            } else {
                0int
            }),
        {
            let ghost at_entry = *self;
            match self.next_line_pop() {
                None => {
                    more = false;
                },
                Some(line) => {
                    let ghost after_pop = *self;
                    let waiting = self.line_order();
                    self.display.change_state(
                        SolverState::Solving(
                            SolvingState { board: &self.board, line, line_waiting: waiting },
                        ),
                    );
                    let ghost g = after_pop.spec_line_index(line);
                    proof {
                        // only the display moved while reporting
                        assert(self.board == after_pop.board);
                        assert(self.line_changed == after_pop.line_changed);
                        assert(self.possibility_count == after_pop.possibility_count);
                        assert(self.row_strategy == after_pop.row_strategy);
                        assert(self.column_strategy == after_pop.column_strategy);
                        assert(self.wf_inner());
                        assert forall|m2: int|
                            0 <= m2 < self.total_lines() implies #[trigger] self.count_of(m2)
                            == self.cands_of(m2).len() by {
                            assert(after_pop.count_of(m2) == after_pop.cands_of(m2).len());
                        }
                        assert forall|m2: int, i: int|
                            0 <= m2 < self.total_lines() && m2 != g && !self.dirty(m2)
                                && #[trigger] self.cands_of(m2).contains(i) implies compatible(
                            pattern_of(self.hint_of(m2), self.len_of(m2), i as nat),
                            self.cells_of(m2),
                        ) by {
                            assert(!after_pop.dirty(m2));
                            assert(after_pop.cands_of(m2).contains(i));
                        }
                    }
                    let ghost popped = *self;
                    let line_result = self.solve_line(line);
                    proof {
                        assert forall|l2: int|
                            0 <= l2 < self.total_lines() implies #[trigger] self.hint_of(l2)
                            == at_entry.hint_of(l2) by {
                            assert(self.hint_of(l2) == popped.hint_of(l2));
                            assert(popped.hint_of(l2) == after_pop.hint_of(l2));
                            assert(after_pop.hint_of(l2) == at_entry.hint_of(l2));
                        }
                        let t = at_entry.total_lines();
                        let u0 = count_unknown(at_entry.board_cells());
                        let u1 = count_unknown(self.board_cells());
                        lemma_count_trues_bound(self.line_changed@);
                        assert(after_pop.board_cells() == at_entry.board_cells());
                        assert(popped.board_cells() == after_pop.board_cells());
                        assert(popped.board_cells() == at_entry.board_cells());
                        assert(self.total_lines() == popped.total_lines());
                        assert(popped.total_lines() == at_entry.total_lines());
                        assert(self.line_changed@.len() == self.total_lines());
                        assert(popped.dirty_count() == after_pop.dirty_count());
                        assert(after_pop.dirty_count() == at_entry.dirty_count() - 1);
                        if line_result is Ok {
                            if u1 < u0 {
                                assert(u1 * (t + 1) + self.dirty_count() < u0 * (t + 1))
                                    by (nonlinear_arith)
                                    requires
                                        u1 < u0,
                                        t >= 0,
                                        self.dirty_count() == count_trues(self.line_changed@),
                                        count_trues(self.line_changed@)
                                            <= self.line_changed@.len(),
                                        self.line_changed@.len() == t,
                                ;
                            } else {
                                assert(count_unknown(self.board_cells()) <= count_unknown(
                                    popped.board_cells(),
                                )) by {
                                    lemma_count_unknown_le(
                                        popped.board_cells(),
                                        self.board_cells(),
                                    );
                                }
                                assert(self.board_cells() == popped.board_cells());
                                assert(u1 == u0);
                                assert(self.dirty_count() == popped.dirty_count());
                                assert(popped.dirty_count() == at_entry.dirty_count() - 1);
                            }
                        }
                    }
                    proof {
                        // monotonicity composes across the iteration
                        assert forall|i: int|
                            0 <= i < self.board_cells().len() && #[trigger] self.board_cells()[i]
                                == Cell::Unknown implies old(self).board_cells()[i]
                            == Cell::Unknown by {
                            assert(popped.board_cells()[i] == Cell::Unknown);
                            assert(at_entry.board_cells()[i] == Cell::Unknown);
                        }
                        assert forall|i: int|
                            0 <= i < self.board_cells().len() && is_determined(
                                #[trigger] old(self).board_cells()[i],
                            ) implies self.board_cells()[i] == old(self).board_cells()[i] by {
                            assert(at_entry.board_cells()[i] == old(self).board_cells()[i]);
                            assert(popped.board_cells()[i] == at_entry.board_cells()[i]);
                        }
                    }
                    match line_result {
                        Ok(()) => (),
                        Err(e) => {
                            proof {
                                let l = popped.spec_line_index(line);
                                assert(0 <= l < self.total_lines());
                                assert(survivors(
                                    self.cands_of(l),
                                    self.hint_of(l),
                                    self.len_of(l),
                                    self.cells_of(l),
                                ) == Set::<int>::empty());
                            }
                            return Err(e);
                        },
                    }
                },
            }
        }
        let ghost fin = *self;
        self.display.change_state(SolverState::Solved);
        proof {
            assert(self.board == fin.board);
            assert(self.board_cells() == fin.board_cells());
            assert(self.line_changed == fin.line_changed);
            assert(self.possibility_count == fin.possibility_count);
            assert(self.row_strategy == fin.row_strategy);
            assert(self.column_strategy == fin.column_strategy);
            assert(self.wf_inner());
            assert forall|m2: int| 0 <= m2 < self.total_lines() implies #[trigger] self.count_of(
                m2,
            ) == self.cands_of(m2).len() by {
                assert(fin.count_of(m2) == fin.cands_of(m2).len());
            }
            assert forall|m2: int, i: int|
                0 <= m2 < self.total_lines() && !self.dirty(m2) && #[trigger] self.cands_of(
                    m2,
                ).contains(i) implies compatible(
                pattern_of(self.hint_of(m2), self.len_of(m2), i as nat),
                self.cells_of(m2),
            ) by {
                assert(!fin.dirty(m2));
                assert(fin.cands_of(m2).contains(i));
            }
            assert forall|m2: int| 0 <= m2 < self.total_lines() implies !(#[trigger] self.dirty(
                m2,
            )) by {
                assert(!fin.dirty(m2));
            }
            assert forall|l2: int| 0 <= l2 < self.total_lines() implies #[trigger] self.hint_of(
                l2,
            ) == fin.hint_of(l2) by {}
            if self.spec_solved() {
                self.lemma_solved_matches_hints();
            }
        }
        Ok(())
    }

    /// The board only ever holds grid-visible values: a crash is never
    /// persisted in a cell.
    pub proof fn lemma_board_never_holds_crash(&self)
        requires
            self.wf(),
        ensures
            forall|i: int|
                0 <= i < self.board_cells().len() ==> is_board_cell(
                    #[trigger] self.board_cells()[i],
                ),
    {
    }

    /// Every arrangement a clean line still holds viable is compatible with
    /// the line's cells: materializing and intersecting it never crashes.
    pub proof fn lemma_clean_line_consistent(&self, l: int, i: int)
        requires
            self.wf(),
            0 <= l < self.total_lines(),
            !self.dirty(l),
            self.cands_of(l).contains(i),
        ensures
            compatible(pattern_of(self.hint_of(l), self.len_of(l), i as nat), self.cells_of(l)),
    {
    }

    /// The heart of the solver's guarantee: once no line is dirty, a fully
    /// determined board reads back as exactly the given hints, row by row
    /// and column by column.
    pub proof fn lemma_solved_matches_hints(&self)
        requires
            self.wf(),
            self.quiescent(),
            self.spec_solved(),
        ensures
            self.board_matches_hints(),
    {
        self.row_strategy.lemma_wf_facts();
        self.column_strategy.lemma_wf_facts();
        assert forall|l: int| 0 <= l < self.total_lines() implies run_lengths(
            #[trigger] self.cells_of(l),
        ) == self.hint_of(l) by {
            let hint = self.hint_of(l);
            let length = self.len_of(l);
            let cells = self.cells_of(l);
            let cands = self.cands_of(l);
            assert(cands.finite() && cands.len() >= 1);
            vstd::set_lib::lemma_set_empty_equivalency_len(cands);
            let i = choose|i: int| cands.contains(i);
            assert(cands.contains(i));
            assert(!self.dirty(l));
            assert(compatible(pattern_of(hint, length, i as nat), cells));
            assert(valid_hint(hint, length));
            assert(0 <= i < candidate_count(hint, length));
            crate::line_pattern::lemma_pattern_matches_hint(hint, length, i as nat);
            let pat = pattern_of(hint, length, i as nat);
            assert(cells.len() == length);
            assert forall|p: int| 0 <= p < length implies pat[p] == cells[p] by {
                lemma_line_cell_in_board(self, l, p);
                assert(cells[p] != Cell::Unknown);
                assert(is_board_cell(cells[p]));
                assert(is_determined(cells[p]));
                assert(spec_merge(pat[p], cells[p]) != Cell::Crash);
                assert(is_determined(pat[p]));
            }
            assert(pat =~= cells);
        }
    }
}

/// A line cell is a board cell: determined once the board is solved, and
/// never a crash.
proof fn lemma_line_cell_in_board<D: SolverDisplay>(s: &Solver<D>, l: int, p: int)
    requires
        s.wf_inner(),
        0 <= l < s.total_lines(),
        0 <= p < s.len_of(l),
    ensures
        exists|g: int|
            0 <= g < s.board_cells().len() && #[trigger] s.board_cells()[g] == s.cells_of(l)[p],
{
    if l < s.rows() {
        crate::board::lemma_row_major_index_bounds(s.rows(), s.cols(), l, p);
        let g = l * s.cols() + p;
        assert(0 <= g < s.board_cells().len() && s.board_cells()[g] == s.cells_of(l)[p]);
    } else {
        crate::board::lemma_row_major_index_bounds(s.rows(), s.cols(), p, l - s.rows());
        let g = p * s.cols() + (l - s.rows());
        assert(0 <= g < s.board_cells().len() && s.board_cells()[g] == s.cells_of(l)[p]);
    }
}

/// A merged line over a nonempty survivor set can be written over the cells
/// it was merged against: it never contradicts a determined cell.
proof fn lemma_merged_writable(
    merged: Seq<Cell>,
    surv: Set<int>,
    cands: Set<int>,
    hint: Seq<nat>,
    length: nat,
    cur: Seq<Cell>,
)
    requires
        merged_ok(merged, surv, hint, length),
        surv == survivors(cands, hint, length, cur),
        surv.finite(),
        surv.len() >= 1,
        valid_hint(hint, length),
        forall|i: int| surv.contains(i) ==> 0 <= i < candidate_count(hint, length),
        cur.len() == length,
    ensures
        forall|p: int| 0 <= p < length ==> is_board_cell(#[trigger] merged[p]),
        forall|p: int|
            0 <= p < length && is_determined(#[trigger] cur[p]) ==> (merged[p] == Cell::Unknown
                || merged[p] == cur[p]),
{
    vstd::set_lib::lemma_set_empty_equivalency_len(surv);
    let i = choose|i: int| surv.contains(i);
    assert(surv.contains(i));
    crate::line_pattern::lemma_pattern_matches_hint(hint, length, i as nat);
    let pat = pattern_of(hint, length, i as nat);
    assert(compatible(pat, cur));
    assert forall|p: int| 0 <= p < length && is_determined(#[trigger] cur[p]) implies (merged[p]
        == Cell::Unknown || merged[p] == cur[p]) by {
        assert(spec_merge(pat[p], cur[p]) != Cell::Crash);
        assert(is_determined(pat[p]));
        assert(pat[p] == cur[p]);
        if merged[p] == Cell::Block {
            assert(all_place(surv, hint, length, p, Cell::Block));
            assert(pat[p] == Cell::Block);
        } else if merged[p] == Cell::Blank {
            assert(all_place(surv, hint, length, p, Cell::Blank));
            assert(pat[p] == Cell::Blank);
        }
    }
}

/// Whether lines `a` and `b` run along the same axis, rows being the first
/// `rows` slots.
pub open spec fn same_axis(rows: int, a: int, b: int) -> bool {
    (a < rows) == (b < rows)
}

/// The position at which the crossing line `m` meets line `l`.
pub open spec fn cross_position(rows: int, l: int, m: int) -> int {
    if l < rows {
        m - rows
    } else {
        m
    }
}

/// The message every invalid hint carries.
fn invalid_hint_message() -> (r: String)
    ensures
        true,
{
    "invalid hint: a run is zero or the hint does not fit the line".to_owned()
}

} // verus!

use nonogram_solver::board::Vec2;
use nonogram_solver::cell::Cell;
use nonogram_solver::cell::Cell::{Blank, Block};
use nonogram_solver::solver::Solver;
use nonogram_solver::solver_display::SilentDisplay;
use nonogram_solver::types::{Line, LineDirection, SolverError};

fn board_cells(solver: &Solver<SilentDisplay>, rows: usize, cols: usize) -> Vec<Vec<Cell>> {
    let mut out = Vec::new();
    for r in 0..rows {
        let mut row = Vec::new();
        for c in 0..cols {
            row.push(*solver.board().value(Vec2 { row: r, column: c }));
        }
        out.push(row);
    }
    out
}

fn crosshatch_solver() -> Solver<SilentDisplay> {
    Solver::new(
        Vec2 { row: 10, column: 10 },
        vec![
            vec![2, 2, 2],
            vec![2, 3, 2],
            vec![2, 3, 3],
            vec![2, 2, 3],
            vec![2, 2, 2],
            vec![3, 2, 2],
            vec![3, 3, 2],
            vec![2, 3, 2],
            vec![2, 2, 2],
            vec![2, 2, 2],
        ],
        vec![
            vec![10],
            vec![10],
            vec![2],
            vec![2],
            vec![10],
            vec![10],
            vec![2],
            vec![2],
            vec![10],
            vec![10],
        ],
        SilentDisplay {},
    )
    .unwrap()
}

fn crosshatch_expected() -> Vec<Vec<Cell>> {
    vec![
        vec![Block, Block, Blank, Blank, Block, Block, Blank, Blank, Block, Block],
        vec![Block, Block, Blank, Block, Block, Block, Blank, Blank, Block, Block],
        vec![Block, Block, Blank, Block, Block, Block, Blank, Block, Block, Block],
        vec![Block, Block, Blank, Blank, Block, Block, Blank, Block, Block, Block],
        vec![Block, Block, Blank, Blank, Block, Block, Blank, Blank, Block, Block],
        vec![Block, Block, Block, Blank, Block, Block, Blank, Blank, Block, Block],
        vec![Block, Block, Block, Blank, Block, Block, Block, Blank, Block, Block],
        vec![Block, Block, Blank, Blank, Block, Block, Block, Blank, Block, Block],
        vec![Block, Block, Blank, Blank, Block, Block, Blank, Blank, Block, Block],
        vec![Block, Block, Blank, Blank, Block, Block, Blank, Blank, Block, Block],
    ]
}

#[test]
fn test_solve_line() {
    let mut solver = crosshatch_solver();

    for row in 0..10 {
        solver.solve_line(Line::new(LineDirection::Row, row)).unwrap();
    }
    for col in 0..10 {
        solver.solve_line(Line::new(LineDirection::Column, col)).unwrap();
    }
    for row in 0..10 {
        solver.solve_line(Line::new(LineDirection::Row, row)).unwrap();
    }

    let expected_board = crosshatch_expected();
    let got = board_cells(&solver, 10, 10);
    assert_eq!(got, expected_board);
}

#[test]
fn solve_double_crosshatch_end_to_end() {
    let mut solver = crosshatch_solver();
    solver.solve().unwrap();
    assert!(solver.is_solved());
    assert_eq!(board_cells(&solver, 10, 10), crosshatch_expected());
}

#[test]
fn solve_one_by_one_empty_hint() {
    let mut solver = Solver::new(
        Vec2 { row: 1, column: 1 },
        vec![vec![]],
        vec![vec![]],
        SilentDisplay {},
    )
    .unwrap();
    solver.solve().unwrap();
    assert!(solver.is_solved());
    assert_eq!(board_cells(&solver, 1, 1), vec![vec![Blank]]);
}

#[test]
fn solve_single_full_run() {
    let mut solver = Solver::new(
        Vec2 { row: 1, column: 5 },
        vec![vec![5]],
        vec![vec![1], vec![1], vec![1], vec![1], vec![1]],
        SilentDisplay {},
    )
    .unwrap();
    solver.solve().unwrap();
    assert!(solver.is_solved());
    assert_eq!(
        board_cells(&solver, 1, 5),
        vec![vec![Block, Block, Block, Block, Block]]
    );
}

#[test]
fn solve_partially_forced_row_converges() {
    // a row hint [3] in five cells forces only the middle cell on its own;
    // the empty and single-cell column hints settle the rest
    let mut solver = Solver::new(
        Vec2 { row: 1, column: 5 },
        vec![vec![3]],
        vec![vec![], vec![1], vec![1], vec![1], vec![]],
        SilentDisplay {},
    )
    .unwrap();
    solver.solve().unwrap();
    assert!(solver.is_solved());
    assert_eq!(
        board_cells(&solver, 1, 5),
        vec![vec![Blank, Block, Block, Block, Blank]]
    );
}

#[test]
fn middle_cell_is_forced_by_one_line_solve() {
    let mut solver = Solver::new(
        Vec2 { row: 1, column: 5 },
        vec![vec![3]],
        vec![vec![], vec![1], vec![1], vec![1], vec![]],
        SilentDisplay {},
    )
    .unwrap();
    solver.solve_line(Line::new(LineDirection::Row, 0)).unwrap();
    assert_eq!(*solver.board().value(Vec2 { row: 0, column: 2 }), Block);
}

#[test]
fn forced_line_is_solved_in_one_call() {
    // an all-unknown row with a forced hint is determined by one line solve
    let mut solver = Solver::new(
        Vec2 { row: 1, column: 5 },
        vec![vec![2, 2]],
        vec![vec![1], vec![1], vec![], vec![1], vec![1]],
        SilentDisplay {},
    )
    .unwrap();
    assert_eq!(solver.get_line_possibility_count(0), 1);
    solver.solve_line(Line::new(LineDirection::Row, 0)).unwrap();
    assert_eq!(
        board_cells(&solver, 1, 5),
        vec![vec![Block, Block, Blank, Block, Block]]
    );
}

#[test]
fn solve_degenerate_candidates() {
    let mut solver = Solver::new(
        Vec2 { row: 3, column: 3 },
        vec![vec![3], vec![], vec![3]],
        vec![vec![1, 1], vec![1, 1], vec![1, 1]],
        SilentDisplay {},
    )
    .unwrap();
    solver.solve().unwrap();
    assert!(solver.is_solved());
    assert_eq!(
        board_cells(&solver, 3, 3),
        vec![
            vec![Block, Block, Block],
            vec![Blank, Blank, Blank],
            vec![Block, Block, Block],
        ]
    );
}

#[test]
fn infeasible_hint_is_rejected() {
    let result = Solver::new(
        Vec2 { row: 1, column: 3 },
        vec![vec![2, 2]],
        vec![vec![], vec![], vec![]],
        SilentDisplay {},
    );
    assert!(matches!(result, Err(SolverError::InvalidInitialInfo(_))));
}

#[test]
fn zero_run_is_rejected() {
    let result = Solver::new(
        Vec2 { row: 1, column: 3 },
        vec![vec![0]],
        vec![vec![], vec![], vec![]],
        SilentDisplay {},
    );
    assert!(matches!(result, Err(SolverError::InvalidInitialInfo(_))));
}

#[test]
fn empty_board_is_rejected() {
    let result = Solver::new(Vec2 { row: 0, column: 0 }, vec![], vec![], SilentDisplay {});
    assert!(matches!(result, Err(SolverError::InvalidBoardSize(0, 0))));
}

#[test]
fn contradictory_hints_fail_while_solving() {
    // the row demands a filled cell, the column an empty one
    let mut solver = Solver::new(
        Vec2 { row: 1, column: 1 },
        vec![vec![1]],
        vec![vec![]],
        SilentDisplay {},
    )
    .unwrap();
    let result = solver.solve();
    assert!(matches!(result, Err(SolverError::InvalidSolvingState(_))));
}

#[test]
fn possibility_counts_never_grow() {
    let mut solver = crosshatch_solver();
    let before: Vec<usize> = (0..20).map(|l| solver.get_line_possibility_count(l)).collect();
    solver.solve_line(Line::new(LineDirection::Row, 0)).unwrap();
    solver.solve_line(Line::new(LineDirection::Column, 3)).unwrap();
    let after: Vec<usize> = (0..20).map(|l| solver.get_line_possibility_count(l)).collect();
    for l in 0..20 {
        assert!(after[l] <= before[l]);
    }
}

#[test]
fn line_order_is_cheapest_first() {
    let solver = crosshatch_solver();
    let order = solver.line_order();
    assert_eq!(order.len(), 20);
    let mut last = 0usize;
    for line in order {
        let slot = match line.direction() {
            LineDirection::Row => line.index(),
            LineDirection::Column => 10 + line.index(),
        };
        let count = solver.get_line_possibility_count(slot);
        assert!(count >= last);
        last = count;
    }
}

#[test]
fn line_order_lists_each_dirty_line_once() {
    let mut solver = crosshatch_solver();
    assert_eq!(solver.line_order().len(), 20);
    solver.solve().unwrap();
    // nothing is waiting once solving is done
    assert_eq!(solver.line_order().len(), 0);
}

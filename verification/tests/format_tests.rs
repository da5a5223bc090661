use nonogram_solver::board::{Board, Vec2};
use nonogram_solver::board_formatter::{usize_to_string, BoardFormatter};
use nonogram_solver::cell::Cell;

#[test]
fn numbers_render_in_decimal() {
    assert_eq!(usize_to_string(0), "0");
    assert_eq!(usize_to_string(7), "7");
    assert_eq!(usize_to_string(10626), "10626");
}

#[test]
fn board_renders_one_line_per_row() {
    let mut board = Board::new(Vec2::new(2, 2), Cell::Unknown);
    *board.value_mut(Vec2::new(0, 0)) = Cell::Block;
    *board.value_mut(Vec2::new(1, 1)) = Cell::Blank;
    let text = board.to_string();
    let lines: Vec<&str> = text.lines().collect();
    assert_eq!(lines.len(), 2);
    assert_eq!(lines[0], "\u{2588}\u{2588} ?? ");
    assert_eq!(lines[1], "??    ");
}

#[test]
fn formatter_shows_hints_and_cells() {
    let mut board = Board::new(Vec2::new(1, 2), Cell::Unknown);
    *board.value_mut(Vec2::new(0, 0)) = Cell::Block;
    *board.value_mut(Vec2::new(0, 1)) = Cell::Blank;
    let formatter = BoardFormatter::new(board, vec![vec![1]], vec![vec![1], vec![]]);
    let text = formatter.to_string();
    assert!(text.contains('1'));
    assert!(text.contains('\u{2588}'));
}

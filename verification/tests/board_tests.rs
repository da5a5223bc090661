use nonogram_solver::board::{Board, BoardVec, Vec2};

#[test]
fn mod_test_board_creation() {
    let board_size = Vec2::new(5, 5);
    let board = Board::new(board_size, 0usize);
    assert_eq!(board.size().row, 5);
    assert_eq!(board.size().column, 5);
}

#[test]
fn mod_test_board_get_set_value() {
    let board_size = Vec2::new(3, 3);
    let mut board = Board::new(board_size, 0usize);
    let pos = Vec2::new(1, 1);
    *board.value_mut(pos) = 5;
    assert_eq!(*board.value(pos), 5);
}

#[test]
fn mod_test_board_get_row_line() {
    let board_size = Vec2::new(3, 3);
    let mut board = Board::new(board_size, 0usize);
    *board.value_mut(Vec2::new(1, 0)) = 1;
    *board.value_mut(Vec2::new(1, 1)) = 2;
    *board.value_mut(Vec2::new(1, 2)) = 3;
    let row_line: Vec<usize> = board.iter_row(1);
    assert_eq!(row_line, vec![1, 2, 3]);
}

#[test]
fn board_vec_test_board_creation() {
    let board_size = Vec2::new(5, 5);
    let board = BoardVec::new(board_size, 0usize);
    assert_eq!(board.size().row, 5);
    assert_eq!(board.size().column, 5);
}

#[test]
fn board_vec_test_board_get_set_value() {
    let board_size = Vec2::new(3, 3);
    let mut board = BoardVec::new(board_size, 0usize);
    let pos = Vec2::new(1, 1);
    *board.value_mut(pos) = 5;
    assert_eq!(*board.value(pos), 5);
}

#[test]
fn board_vec_test_board_get_row_line() {
    let board_size = Vec2::new(3, 3);
    let mut board = BoardVec::new(board_size, 0usize);
    *board.value_mut(Vec2::new(1, 0)) = 1;
    *board.value_mut(Vec2::new(1, 1)) = 2;
    *board.value_mut(Vec2::new(1, 2)) = 3;
    let row_line: Vec<usize> = board.iter_row(1);
    assert_eq!(row_line, vec![1, 2, 3]);
}

#[test]
fn board_column_iteration_matches_writes() {
    let mut board = Board::new(Vec2::new(3, 2), 0usize);
    *board.value_mut(Vec2::new(0, 1)) = 7;
    *board.value_mut(Vec2::new(2, 1)) = 9;
    assert_eq!(board.iter_column(1), vec![7, 0, 9]);
    assert_eq!(board.iter_all(), vec![0, 7, 0, 0, 0, 9]);
}

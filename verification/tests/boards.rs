use sudoku::grid::{get_backup, get_box, get_col, get_empty_board, get_row, Board};

fn puzzle() -> Board {
    [
        [5, 3, 0, 0, 7, 0, 0, 0, 0],
        [6, 0, 0, 1, 9, 5, 0, 0, 0],
        [0, 9, 8, 0, 0, 0, 0, 6, 0],
        [8, 0, 0, 0, 6, 0, 0, 0, 3],
        [4, 0, 0, 8, 0, 3, 0, 0, 1],
        [7, 0, 0, 0, 2, 0, 0, 0, 6],
        [0, 6, 0, 0, 0, 0, 2, 8, 0],
        [0, 0, 0, 4, 1, 9, 0, 0, 5],
        [0, 0, 0, 0, 8, 0, 0, 7, 9],
    ]
}

#[test]
fn empty_board_holds_81_zeros() {
    let board = get_empty_board();
    assert_eq!(board, [[0; 9]; 9]);
}

#[test]
fn row_is_read_left_to_right() {
    let board = puzzle();
    assert_eq!(get_row(&board, 0), [5, 3, 0, 0, 7, 0, 0, 0, 0]);
    assert_eq!(get_row(&board, 8), [0, 0, 0, 0, 8, 0, 0, 7, 9]);
}

#[test]
fn column_is_read_top_to_bottom() {
    let board = puzzle();
    assert_eq!(get_col(&board, 0), [5, 6, 0, 8, 4, 7, 0, 0, 0]);
    assert_eq!(get_col(&board, 8), [0, 0, 0, 3, 1, 6, 0, 5, 9]);
}

#[test]
fn block_is_read_row_by_row() {
    let board = puzzle();
    assert_eq!(get_box(&board, 0, 0), [5, 3, 0, 6, 0, 0, 0, 9, 8]);
    assert_eq!(get_box(&board, 1, 1), [0, 6, 0, 8, 0, 3, 0, 2, 0]);
    assert_eq!(get_box(&board, 2, 2), [2, 8, 0, 0, 0, 5, 0, 7, 9]);
    assert_eq!(get_box(&board, 0, 2), [0, 0, 0, 0, 0, 0, 0, 6, 0]);
    assert_eq!(get_box(&board, 2, 0), [0, 6, 0, 0, 0, 0, 0, 0, 0]);
}

#[test]
fn backup_is_an_equal_copy() {
    let mut board = puzzle();
    let backup = get_backup(&board);
    assert_eq!(backup, board);
    board[0][2] = 4;
    assert_eq!(backup[0][2], 0);
    assert_ne!(backup, board);
}

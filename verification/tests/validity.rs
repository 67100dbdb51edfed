use sudoku::grid::{get_empty_board, Board};
use sudoku::validity::{done, find_invalid_unit, is_complete_set, is_valid, is_valid_set, UnitId};

fn solved() -> Board {
    [
        [5, 3, 4, 6, 7, 8, 9, 1, 2],
        [6, 7, 2, 1, 9, 5, 3, 4, 8],
        [1, 9, 8, 3, 4, 2, 5, 6, 7],
        [8, 5, 9, 7, 6, 1, 4, 2, 3],
        [4, 2, 6, 8, 5, 3, 7, 9, 1],
        [7, 1, 3, 9, 2, 4, 8, 5, 6],
        [9, 6, 1, 5, 3, 7, 2, 8, 4],
        [2, 8, 7, 4, 1, 9, 6, 3, 5],
        [3, 4, 5, 2, 8, 6, 1, 7, 9],
    ]
}

#[test]
fn a_set_of_zeros_is_valid() {
    assert!(is_valid_set([0; 9]));
}

#[test]
fn a_set_with_distinct_digits_is_valid() {
    assert!(is_valid_set([1, 2, 3, 4, 5, 6, 7, 8, 9]));
    assert!(is_valid_set([0, 2, 0, 4, 0, 6, 0, 8, 0]));
    assert!(is_valid_set([9, 0, 0, 0, 0, 0, 0, 0, 1]));
}

#[test]
fn a_set_with_a_repeated_digit_is_not_valid() {
    assert!(!is_valid_set([1, 1, 0, 0, 0, 0, 0, 0, 0]));
    assert!(!is_valid_set([0, 0, 0, 0, 0, 0, 0, 9, 9]));
    assert!(!is_valid_set([3, 0, 0, 0, 3, 0, 0, 0, 3]));
    assert!(!is_valid_set([1, 2, 3, 4, 5, 6, 7, 8, 8]));
}

#[test]
fn a_complete_set_is_the_nine_digits_in_any_order() {
    assert!(is_complete_set([1, 2, 3, 4, 5, 6, 7, 8, 9]));
    assert!(is_complete_set([9, 8, 7, 6, 5, 4, 3, 2, 1]));
    assert!(is_complete_set([5, 3, 4, 6, 7, 8, 9, 1, 2]));
}

#[test]
fn a_set_with_a_gap_or_a_stranger_is_not_complete() {
    assert!(!is_complete_set([0, 2, 3, 4, 5, 6, 7, 8, 9]));
    assert!(!is_complete_set([1, 1, 3, 4, 5, 6, 7, 8, 9]));
    assert!(!is_complete_set([1, 2, 3, 4, 5, 6, 7, 8, 10]));
    assert!(!is_complete_set([-1, 2, 3, 4, 5, 6, 7, 8, 9]));
    assert!(!is_complete_set([0; 9]));
}

#[test]
fn the_empty_board_is_valid_and_not_done() {
    let board = get_empty_board();
    assert!(is_valid(&board));
    assert_eq!(find_invalid_unit(&board), None);
    assert!(!done(&board));
}

#[test]
fn a_solved_board_is_valid_and_done() {
    let board = solved();
    assert!(is_valid(&board));
    assert!(done(&board));
}

#[test]
fn a_solved_board_with_one_cell_emptied_is_valid_and_not_done() {
    let mut board = solved();
    board[4][4] = 0;
    assert!(is_valid(&board));
    assert!(!done(&board));
}

#[test]
fn a_row_with_two_equal_digits_makes_the_board_invalid() {
    let mut board = get_empty_board();
    board[3][1] = 7;
    board[3][8] = 7;
    assert!(!is_valid(&board));
    assert_eq!(find_invalid_unit(&board), Some(UnitId::Row(3)));
    assert!(!done(&board));
}

#[test]
fn a_column_with_two_equal_digits_makes_the_board_invalid() {
    let mut board = get_empty_board();
    board[0][5] = 2;
    board[8][5] = 2;
    assert!(!is_valid(&board));
    assert_eq!(find_invalid_unit(&board), Some(UnitId::Col(5)));
}

#[test]
fn a_block_with_two_equal_digits_makes_the_board_invalid() {
    let mut board = get_empty_board();
    board[3][6] = 4;
    board[5][8] = 4;
    assert!(!is_valid(&board));
    assert_eq!(find_invalid_unit(&board), Some(UnitId::Block(1, 2)));
}

#[test]
fn rows_and_columns_are_examined_in_turn_and_blocks_last() {
    // Row 3 and column 1 are both at fault; column 1 is examined first.
    let mut board = get_empty_board();
    board[3][4] = 7;
    board[3][8] = 7;
    board[0][1] = 5;
    board[6][1] = 5;
    assert_eq!(find_invalid_unit(&board), Some(UnitId::Col(1)));
    // Row 0 comes before column 0.
    let mut board = get_empty_board();
    board[0][0] = 1;
    board[0][8] = 1;
    board[8][0] = 1;
    assert_eq!(find_invalid_unit(&board), Some(UnitId::Row(0)));
    // A fault in the first block is found as a block only when no row or
    // column shows it; here row 8 shows another fault and is found first.
    let mut board = get_empty_board();
    board[0][0] = 6;
    board[1][1] = 6;
    board[8][0] = 3;
    board[8][5] = 3;
    assert_eq!(find_invalid_unit(&board), Some(UnitId::Row(8)));
    // Of two faulty blocks, the one further up is found.
    let mut board = get_empty_board();
    board[6][6] = 6;
    board[7][7] = 6;
    board[3][0] = 2;
    board[4][1] = 2;
    assert_eq!(find_invalid_unit(&board), Some(UnitId::Block(1, 0)));
}

#[test]
fn a_full_board_with_a_swapped_pair_is_neither_valid_nor_done() {
    let mut board = solved();
    board[0][0] = 3;
    board[0][1] = 5;
    assert!(!is_valid(&board));
    assert!(!done(&board));
}

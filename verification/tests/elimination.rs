use sudoku::elimination::{eliminate, solve_one};
use sudoku::grid::{get_empty_board, Board};
use sudoku::validity::done;

fn puzzle() -> Board {
    [
        [5, 3, 0, 0, 7, 0, 0, 0, 0],
        [6, 0, 0, 1, 9, 5, 0, 0, 0],
        [0, 9, 8, 0, 0, 0, 0, 6, 0],
        [8, 0, 0, 0, 6, 0, 0, 0, 3],
        [4, 0, 0, 8, 0, 3, 0, 0, 1],
        [7, 0, 0, 0, 2, 0, 0, 0, 6],
        [0, 6, 0, 0, 0, 0, 2, 8, 0],
        [0, 0, 0, 4, 1, 9, 0, 0, 5],
        [0, 0, 0, 0, 8, 0, 0, 7, 9],
    ]
}

fn solved() -> Board {
    [
        [5, 3, 4, 6, 7, 8, 9, 1, 2],
        [6, 7, 2, 1, 9, 5, 3, 4, 8],
        [1, 9, 8, 3, 4, 2, 5, 6, 7],
        [8, 5, 9, 7, 6, 1, 4, 2, 3],
        [4, 2, 6, 8, 5, 3, 7, 9, 1],
        [7, 1, 3, 9, 2, 4, 8, 5, 6],
        [9, 6, 1, 5, 3, 7, 2, 8, 4],
        [2, 8, 7, 4, 1, 9, 6, 3, 5],
        [3, 4, 5, 2, 8, 6, 1, 7, 9],
    ]
}

#[test]
fn the_first_cell_with_one_candidate_is_filled() {
    let mut board = puzzle();
    assert!(solve_one(&mut board));
    let mut expected = puzzle();
    expected[4][4] = 5;
    assert_eq!(board, expected);
}

#[test]
fn one_call_makes_one_placement() {
    let mut board = puzzle();
    let mut placed = 0;
    while solve_one(&mut board) {
        placed += 1;
        let empty = board.iter().flatten().filter(|v| **v == 0).count();
        assert_eq!(empty, 51 - placed);
    }
    assert_eq!(placed, 51);
    assert_eq!(board, solved());
}

#[test]
fn nothing_is_placed_when_every_empty_cell_has_a_choice() {
    let mut board = get_empty_board();
    assert!(!solve_one(&mut board));
    assert_eq!(board, get_empty_board());
}

#[test]
fn nothing_is_placed_on_a_full_board() {
    let mut board = solved();
    assert!(!solve_one(&mut board));
    assert_eq!(board, solved());
}

#[test]
fn a_cell_without_candidates_ends_the_scan() {
    // The cell at (0, 8) has no candidate; the cell at (8, 0), further on,
    // has exactly one and is not reached.
    let mut board = get_empty_board();
    board[0] = [1, 2, 3, 4, 5, 6, 7, 8, 0];
    board[1][8] = 9;
    board[8] = [0, 1, 2, 3, 4, 5, 6, 7, 9];
    let before = board;
    assert!(!solve_one(&mut board));
    assert_eq!(board, before);
}

#[test]
fn a_cell_with_one_candidate_before_a_dead_end_is_filled() {
    let mut board = get_empty_board();
    board[0] = [0, 1, 2, 3, 4, 5, 6, 7, 9];
    board[8] = [1, 2, 3, 4, 5, 6, 7, 8, 0];
    board[7][8] = 9;
    let mut expected = board;
    expected[0][0] = 8;
    assert!(solve_one(&mut board));
    assert_eq!(board, expected);
}

#[test]
fn the_last_empty_cell_takes_nine() {
    let mut board = solved();
    board[0][6] = 0;
    assert!(solve_one(&mut board));
    assert_eq!(board, solved());
    assert!(done(&board));
    assert!(!solve_one(&mut board));
}

#[test]
fn elimination_alone_solves_the_puzzle() {
    let mut board = puzzle();
    assert_eq!(eliminate(&mut board), 51);
    assert_eq!(board, solved());
}

#[test]
fn elimination_makes_no_placement_on_a_complete_board() {
    let mut board = solved();
    assert_eq!(eliminate(&mut board), 0);
    assert_eq!(board, solved());
}

#[test]
fn elimination_completes_the_last_cell_in_one_placement() {
    let mut board = solved();
    board[0][6] = 0;
    assert_eq!(eliminate(&mut board), 1);
    assert_eq!(board, solved());
}

#[test]
fn elimination_stops_where_every_empty_cell_has_a_choice() {
    let mut board = get_empty_board();
    assert_eq!(eliminate(&mut board), 0);
    assert_eq!(board, get_empty_board());
}

#[test]
fn elimination_stops_at_a_cell_without_candidates() {
    let mut board = get_empty_board();
    board[0] = [1, 2, 3, 4, 5, 6, 7, 0, 0];
    board[3][7] = 8;
    board[6][8] = 8;
    let mut expected = board;
    expected[0][7] = 9;
    assert_eq!(eliminate(&mut board), 1);
    assert_eq!(board, expected);
}

#[test]
fn elimination_leaves_an_invalid_board_as_it_is() {
    let mut board = solved();
    board[0][6] = 0;
    board[8][8] = 7;
    let before = board;
    assert_eq!(eliminate(&mut board), 0);
    assert_eq!(board, before);
}

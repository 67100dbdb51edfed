use sudoku::grid::{get_empty_board, Board};
use sudoku::space::{search_space, sort_space, Space};

fn puzzle() -> Board {
    [
        [5, 3, 0, 0, 7, 0, 0, 0, 0],
        [6, 0, 0, 1, 9, 5, 0, 0, 0],
        [0, 9, 8, 0, 0, 0, 0, 6, 0],
        [8, 0, 0, 0, 6, 0, 0, 0, 3],
        [4, 0, 0, 8, 0, 3, 0, 0, 1],
        [7, 0, 0, 0, 2, 0, 0, 0, 6],
        [0, 6, 0, 0, 0, 0, 2, 8, 0],
        [0, 0, 0, 4, 1, 9, 0, 0, 5],
        [0, 0, 0, 0, 8, 0, 0, 7, 9],
    ]
}

fn entry(row: usize, col: usize, opts: &[i32]) -> Space {
    Space { row, col, opts: opts.to_vec() }
}

fn cells(space: &[Space]) -> Vec<(usize, usize, usize)> {
    space.iter().map(|s| (s.row, s.col, s.opts.len())).collect()
}

#[test]
fn the_search_space_lists_the_empty_cells_in_scan_order() {
    let space = search_space(&puzzle());
    assert_eq!(space.len(), 51);
    assert_eq!((space[0].row, space[0].col), (0, 2));
    assert_eq!(space[0].opts, vec![1, 2, 4]);
    assert_eq!((space[1].row, space[1].col), (0, 3));
    assert_eq!(space[1].opts, vec![2, 6]);
    assert_eq!((space[2].row, space[2].col), (0, 5));
    assert_eq!(space[2].opts, vec![2, 4, 6, 8]);
    assert_eq!((space[50].row, space[50].col), (8, 6));
    for pair in space.windows(2) {
        assert!(pair[0].row * 9 + pair[0].col < pair[1].row * 9 + pair[1].col);
    }
    for s in &space {
        assert_eq!(puzzle()[s.row][s.col], 0);
    }
}

#[test]
fn the_search_space_of_a_full_board_is_empty() {
    let board: Board = [[1; 9]; 9];
    assert!(search_space(&board).is_empty());
}

#[test]
fn the_search_space_of_the_empty_board_has_81_entries() {
    let space = search_space(&get_empty_board());
    assert_eq!(space.len(), 81);
    assert!(space.iter().all(|s| s.opts == vec![1, 2, 3, 4, 5, 6, 7, 8, 9]));
}

#[test]
fn sorting_puts_the_most_constrained_cells_first() {
    let mut space = search_space(&puzzle());
    sort_space(&mut space);
    assert_eq!(
        cells(&space[..8]),
        vec![
            (4, 4, 1),
            (6, 5, 1),
            (6, 8, 1),
            (7, 7, 1),
            (0, 3, 2),
            (2, 0, 2),
            (2, 3, 2),
            (2, 4, 2),
        ]
    );
    assert_eq!(cells(&space[48..]), vec![(2, 6, 5), (8, 2, 5), (6, 2, 6)]);
    assert_eq!(space[0].opts, vec![5]);
    assert_eq!(space[50].opts, vec![1, 3, 4, 5, 7, 9]);
}

#[test]
fn sorting_keeps_entries_of_equal_count_in_their_order() {
    let mut space = vec![
        entry(0, 0, &[1, 2, 3]),
        entry(0, 1, &[4]),
        entry(0, 2, &[5, 6]),
        entry(0, 3, &[7]),
        entry(0, 4, &[8, 9]),
        entry(0, 5, &[]),
        entry(0, 6, &[1]),
    ];
    sort_space(&mut space);
    assert_eq!(
        cells(&space),
        vec![(0, 5, 0), (0, 1, 1), (0, 3, 1), (0, 6, 1), (0, 2, 2), (0, 4, 2), (0, 0, 3)]
    );
    assert_eq!(space[1].opts, vec![4]);
    assert_eq!(space[2].opts, vec![7]);
    assert_eq!(space[3].opts, vec![1]);
}

#[test]
fn sorting_an_empty_or_a_sorted_list_changes_nothing() {
    let mut none: Vec<Space> = Vec::new();
    sort_space(&mut none);
    assert!(none.is_empty());
    let mut space = vec![entry(1, 1, &[2]), entry(0, 0, &[3]), entry(2, 2, &[4, 5])];
    sort_space(&mut space);
    assert_eq!(cells(&space), vec![(1, 1, 1), (0, 0, 1), (2, 2, 2)]);
}

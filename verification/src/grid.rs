//! The 9×9 board and its row, column and block projections.

use vstd::prelude::*;

verus! {

/// A board: nine rows of nine cells. A cell holds 0 when it is empty and a
/// digit from 1 to 9 when it is filled.
pub type Board = [[i32; 9]; 9];

/// The value at row `r`, column `c`.
pub open spec fn cell(b: Board, r: int, c: int) -> i32 {
    b[r][c]
}

/// Whether `(r, c)` names a cell of the board.
pub open spec fn on_board(r: int, c: int) -> bool {
    0 <= r < 9 && 0 <= c < 9
}

/// Every cell holds 0 or a digit from 1 to 9.
pub open spec fn in_range(b: Board) -> bool {
    forall|r: int, c: int| on_board(r, c) ==> 0 <= #[trigger] cell(b, r, c) <= 9
}

/// Row `r`, left to right.
pub open spec fn row_of(b: Board, r: int) -> Seq<i32> {
    Seq::new(9, |c: int| cell(b, r, c))
}

/// Column `c`, top to bottom.
pub open spec fn col_of(b: Board, c: int) -> Seq<i32> {
    Seq::new(9, |r: int| cell(b, r, c))
}

/// The 3×3 block at block row `rb` and block column `cb`, row by row.
pub open spec fn box_of(b: Board, rb: int, cb: int) -> Seq<i32> {
    Seq::new(9, |i: int| cell(b, rb * 3 + i / 3, cb * 3 + i % 3))
}

/// The board `b` with the cell at `(r, c)` set to `v`.
pub open spec fn place(b: Board, r: int, c: int, v: i32) -> Board {
    vstd::array::spec_array_update(b, r, vstd::array::spec_array_update(b[r], c, v))
}

/// `place` changes the named cell and no other.
pub proof fn lemma_place(b: Board, r: int, c: int, v: i32)
    requires
        on_board(r, c),
    ensures
        cell(place(b, r, c, v), r, c) == v,
        forall|i: int, j: int|
            on_board(i, j) && !(i == r && j == c) ==> #[trigger] cell(place(b, r, c, v), i, j)
                == cell(b, i, j),
{
    broadcast use vstd::array::axiom_spec_array_update;
}

/// Two boards with the same 81 cells are the same board.
pub proof fn lemma_board_ext(a: Board, b: Board)
    requires
        forall|r: int, c: int| on_board(r, c) ==> #[trigger] cell(a, r, c) == cell(b, r, c),
    ensures
        a == b,
{
    assert forall|r: int| 0 <= r < 9 implies a[r] == b[r] by {
        assert forall|c: int| 0 <= c < 9 implies a[r][c] == b[r][c] by {
            assert(cell(a, r, c) == cell(b, r, c));
        }
        assert(a[r] =~= b[r]);
    }
    assert(a =~= b);
}

/// A board with every cell empty.
pub fn get_empty_board() -> (board: Board)
    ensures
        forall|r: int, c: int| on_board(r, c) ==> #[trigger] cell(board, r, c) == 0,
{
    [[0i32; 9]; 9]
}

/// Copies row `r` out of the board.
pub fn get_row(board: &Board, r: usize) -> (row: [i32; 9])
    requires
        r < 9,
    ensures
        row@ == row_of(*board, r as int),
{
    let mut row: [i32; 9] = [0i32; 9];
    for c in 0..9usize
        invariant
            r < 9,
            forall|j: int| 0 <= j < c ==> row[j] == cell(*board, r as int, j),
    {
        row[c] = board[r][c];
    }
    assert(row@ =~= row_of(*board, r as int));
    row
}

/// Copies column `c` out of the board.
pub fn get_col(board: &Board, c: usize) -> (col: [i32; 9])
    requires
        c < 9,
    ensures
        col@ == col_of(*board, c as int),
{
    let mut col: [i32; 9] = [0i32; 9];
    for r in 0..9usize
        invariant
            c < 9,
            forall|j: int| 0 <= j < r ==> col[j] == cell(*board, j, c as int),
    {
        col[r] = board[r][c];
    }
    assert(col@ =~= col_of(*board, c as int));
    col
}

/// Copies the block at block row `rb`, block column `cb` out of the board,
/// its three rows one after the other.
pub fn get_box(board: &Board, rb: usize, cb: usize) -> (bx: [i32; 9])
    requires
        rb < 3,
        cb < 3,
    ensures
        bx@ == box_of(*board, rb as int, cb as int),
{
    let mut bx: [i32; 9] = [0i32; 9];
    let mut i: usize = 0;
    for r in 0..3usize
        invariant
            rb < 3,
            cb < 3,
            i == r * 3,
            forall|j: int|
                0 <= j < i ==> bx[j] == cell(*board, rb * 3 + j / 3, cb * 3 + j % 3),
    {
        for c in 0..3usize
            invariant
                rb < 3,
                cb < 3,
                r < 3,
                i == r * 3 + c,
                forall|j: int|
                    0 <= j < i ==> bx[j] == cell(*board, rb * 3 + j / 3, cb * 3 + j % 3),
        {
            bx[i] = board[rb * 3 + r][cb * 3 + c];
            i += 1;
        }
    }
    assert(bx@ =~= box_of(*board, rb as int, cb as int));
    bx
}

/// A copy of the whole board.
pub fn get_backup(board: &Board) -> (backup: Board)
    ensures
        backup == *board,
{
    let mut backup = get_empty_board();
    for r in 0..9usize
        invariant
            forall|i: int, j: int| 0 <= i < r && 0 <= j < 9 ==> cell(backup, i, j) == cell(*board, i, j),
    {
        for c in 0..9usize
            invariant
                r < 9,
                forall|i: int, j: int|
                    0 <= i < r && 0 <= j < 9 ==> cell(backup, i, j) == cell(*board, i, j),
                forall|j: int| 0 <= j < c ==> cell(backup, r as int, j) == cell(*board, r as int, j),
        {
            backup[r][c] = board[r][c];
        }
    }
    proof {
        lemma_board_ext(backup, *board);
    }
    backup
}

} // verus!

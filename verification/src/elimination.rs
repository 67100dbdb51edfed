//! Forced placements: a cell that has one candidate left is filled with it.

use vstd::prelude::*;
use crate::candidates::{candidate_list, candidates, lemma_candidates};
use crate::grid::{Board, cell, in_range, lemma_board_ext, lemma_place, on_board, place};
use crate::solutions::{
    empties,
    lemma_empties_bound,
    lemma_forced_keeps_solutions,
    lemma_place_fills,
    same_solutions,
};
use crate::validity::{board_complete, board_valid, done, is_valid};

verus! {

/// The place of a cell in the order in which the board is scanned: row by
/// row, each row from left to right.
pub open spec fn scan_index(r: int, c: int) -> int {
    r * 9 + c
}

/// The cell at `(r, c)` is empty and has fewer than two candidates, and
/// every empty cell that is scanned before it has two or more.
pub open spec fn first_tight(b: Board, r: int, c: int) -> bool {
    &&& on_board(r, c)
    &&& cell(b, r, c) == 0
    &&& candidates(b, r, c).len() <= 1
    &&& forall|i: int, j: int|
        on_board(i, j) && scan_index(i, j) < scan_index(r, c) && cell(b, i, j) == 0
            ==> #[trigger] candidates(b, i, j).len() >= 2
}

/// The forced placement that the board offers, as row, column and value: the
/// first empty cell with fewer than two candidates decides. If it has one
/// candidate, that is the move; if it has none, or if there is no such cell,
/// there is no move.
pub open spec fn forced_move(b: Board) -> Option<(int, int, i32)> {
    if exists|r: int, c: int| first_tight(b, r, c) && candidates(b, r, c).len() == 1 {
        let (r, c) = choose|r: int, c: int| first_tight(b, r, c) && candidates(b, r, c).len() == 1;
        Some((r, c, candidates(b, r, c).choose()))
    } else {
        None
    }
}

/// The board after its forced placement, if it offers one.
pub open spec fn forced_next(b: Board) -> Option<Board> {
    match forced_move(b) {
        Some((r, c, v)) => Some(place(b, r, c, v)),
        None => None,
    }
}

/// The board after forced placements have been made one after the other,
/// until the board is complete, or not valid, or offers none.
pub open spec fn propagate(b: Board) -> Board
    decreases empties(b),
    via propagate_decreases
{
    if board_complete(b) || !board_valid(b) {
        b
    } else {
        match forced_move(b) {
            Some((r, c, v)) => propagate(place(b, r, c, v)),
            None => b,
        }
    }
}

#[via_fn]
proof fn propagate_decreases(b: Board) {
    if !(board_complete(b) || !board_valid(b)) {
        if let Some((r, c, v)) = forced_move(b) {
            lemma_forced_move(b);
            lemma_place_fills(b, r, c, v);
        }
    }
}

/// The number of forced placements that lead from the board to
/// `propagate` of it.
pub open spec fn forced_steps(b: Board) -> nat
    decreases empties(b),
    via forced_steps_decreases
{
    if board_complete(b) || !board_valid(b) {
        0
    } else {
        match forced_move(b) {
            Some((r, c, v)) => 1 + forced_steps(place(b, r, c, v)),
            None => 0,
        }
    }
}

#[via_fn]
proof fn forced_steps_decreases(b: Board) {
    if !(board_complete(b) || !board_valid(b)) {
        if let Some((r, c, v)) = forced_move(b) {
            lemma_forced_move(b);
            lemma_place_fills(b, r, c, v);
        }
    }
}

/// Forced placements fill cells and empty none.
pub proof fn lemma_propagate_fills(b: Board)
    ensures
        empties(propagate(b)) <= empties(b),
    decreases empties(b),
{
    if !(board_complete(b) || !board_valid(b)) {
        if let Some((r, c, v)) = forced_move(b) {
            lemma_forced_move(b);
            lemma_place_fills(b, r, c, v);
            lemma_propagate_fills(place(b, r, c, v));
        }
    }
}

/// At most one cell is the first with fewer than two candidates.
pub proof fn lemma_first_tight_unique(b: Board, r: int, c: int, r2: int, c2: int)
    requires
        first_tight(b, r, c),
        first_tight(b, r2, c2),
    ensures
        r == r2,
        c == c2,
{
    if scan_index(r, c) < scan_index(r2, c2) {
        assert(candidates(b, r, c).len() >= 2);
    }
    if scan_index(r2, c2) < scan_index(r, c) {
        assert(candidates(b, r2, c2).len() >= 2);
    }
}

/// A forced move fills an empty cell with its only candidate, a digit.
pub proof fn lemma_forced_move(b: Board)
    ensures
        forced_move(b) matches Some((r, c, v)) ==> {
            &&& first_tight(b, r, c)
            &&& candidates(b, r, c).len() == 1
            &&& candidates(b, r, c).contains(v)
            &&& 1 <= v <= 9
        },
{
    if let Some((r, c, v)) = forced_move(b) {
        lemma_candidates(b, r, c);
        assert(candidates(b, r, c).len() != 0);
        vstd::set_lib::lemma_set_empty_equivalency_len(candidates(b, r, c));
        assert(candidates(b, r, c).contains(candidates(b, r, c).choose()));
    }
}

/// When the first cell with fewer than two candidates has one, `v`, the
/// forced move puts `v` there.
pub proof fn lemma_forced_move_is(b: Board, r: int, c: int, v: i32)
    requires
        first_tight(b, r, c),
        candidates(b, r, c).len() == 1,
        candidates(b, r, c).contains(v),
    ensures
        forced_move(b) == Some((r, c, v)),
{
    let (r2, c2) = choose|r2: int, c2: int|
        first_tight(b, r2, c2) && candidates(b, r2, c2).len() == 1;
    lemma_first_tight_unique(b, r, c, r2, c2);
    lemma_forced_move(b);
    lemma_candidates(b, r, c);
    Set::lemma_is_singleton(candidates(b, r, c));
}

/// When every empty cell has two candidates or more, or when the first that
/// has fewer has none, there is no forced move.
pub proof fn lemma_no_forced_move(b: Board)
    requires
        (forall|i: int, j: int|
            on_board(i, j) && cell(b, i, j) == 0 ==> #[trigger] candidates(b, i, j).len() >= 2) || (
        exists|r: int, c: int| first_tight(b, r, c) && candidates(b, r, c).len() == 0),
    ensures
        forced_move(b) is None,
{
    if forced_move(b) is Some {
        lemma_forced_move(b);
        let (r, c, v) = forced_move(b).unwrap();
        assert(first_tight(b, r, c));
        if exists|r2: int, c2: int| first_tight(b, r2, c2) && candidates(b, r2, c2).len() == 0 {
            let (r2, c2) = choose|r2: int, c2: int|
                first_tight(b, r2, c2) && candidates(b, r2, c2).len() == 0;
            lemma_first_tight_unique(b, r, c, r2, c2);
        } else {
            assert(candidates(b, r, c).len() >= 2);
        }
    }
}

/// A board that differs from `a` in the cell at `(r, c)` alone, and holds
/// `v` there, is `a` with `v` placed there.
pub proof fn lemma_is_place(a: Board, b: Board, r: int, c: int, v: i32)
    requires
        on_board(r, c),
        cell(b, r, c) == v,
        forall|i: int, j: int|
            on_board(i, j) && !(i == r && j == c) ==> #[trigger] cell(b, i, j) == cell(a, i, j),
    ensures
        b == place(a, r, c, v),
{
    lemma_place(a, r, c, v);
    let p = place(a, r, c, v);
    assert forall|i: int, j: int| on_board(i, j) implies #[trigger] cell(b, i, j) == cell(
        p,
        i,
        j,
    ) by {
        if !(i == r && j == c) {
            assert(cell(p, i, j) == cell(a, i, j));
        }
    }
    lemma_board_ext(b, p);
}

/// Placing a digit keeps the board in range.
pub proof fn lemma_place_in_range(b: Board, r: int, c: int, v: i32)
    requires
        in_range(b),
        on_board(r, c),
        0 <= v <= 9,
    ensures
        in_range(place(b, r, c, v)),
{
    lemma_place(b, r, c, v);
    let p = place(b, r, c, v);
    assert forall|i: int, j: int| on_board(i, j) implies 0 <= #[trigger] cell(p, i, j) <= 9 by {
        if !(i == r && j == c) {
            assert(cell(p, i, j) == cell(b, i, j));
        }
    }
}

/// Makes the forced placement that the board offers, if it offers one, and
/// says whether it did. The cells are scanned row by row. The first empty
/// cell with fewer than two candidates ends the scan: with one candidate, the
/// cell is filled with it; with none, nothing is placed.
pub fn solve_one(board: &mut Board) -> (placed: bool)
    ensures
        placed == forced_next(*old(board)).is_some(),
        *final(board) == match forced_next(*old(board)) {
            Some(next) => next,
            None => *old(board),
        },
        in_range(*old(board)) ==> in_range(*final(board)),
{
    let mut r: usize = 0;
    while r < 9
        invariant
            r <= 9,
            *board == *old(board),
            forall|i: int, j: int|
                on_board(i, j) && scan_index(i, j) < scan_index(r as int, 0) && cell(*board, i, j)
                    == 0 ==> #[trigger] candidates(*board, i, j).len() >= 2,
        decreases 9 - r,
    {
        let mut c: usize = 0;
        while c < 9
            invariant
                r < 9,
                c <= 9,
                *board == *old(board),
                forall|i: int, j: int|
                    on_board(i, j) && scan_index(i, j) < scan_index(r as int, c as int) && cell(
                        *board,
                        i,
                        j,
                    ) == 0 ==> #[trigger] candidates(*board, i, j).len() >= 2,
            decreases 9 - c,
        {
            if board[r][c] == 0 {
                let opts = candidate_list(board, r, c);
                if opts.len() == 0 {
                    proof {
                        assert(first_tight(*board, r as int, c as int));
                        lemma_no_forced_move(*board);
                    }
                    return false;
                }
                if opts.len() == 1 {
                    let v = opts[0];
                    proof {
                        assert(opts@.to_set().contains(opts@[0]));
                        assert(first_tight(*board, r as int, c as int));
                        lemma_forced_move_is(*board, r as int, c as int, v);
                        lemma_forced_move(*board);
                        lemma_candidates(*board, r as int, c as int);
                        if in_range(*board) {
                            lemma_place_in_range(*board, r as int, c as int, v);
                        }
                    }
                    board[r][c] = v;
                    proof {
                        lemma_is_place(*old(board), *board, r as int, c as int, v);
                    }
                    return true;
                }
            }
            c += 1;
        }
        r += 1;
    }
    proof {
        lemma_no_forced_move(*board);
    }
    false
}

/// Forced placements neither lose a solution nor add one.
pub proof fn lemma_propagate_keeps_solutions(b: Board)
    ensures
        same_solutions(b, propagate(b)),
    decreases empties(b),
{
    if !(board_complete(b) || !board_valid(b)) {
        if let Some((r, c, v)) = forced_move(b) {
            lemma_forced_move(b);
            lemma_place_fills(b, r, c, v);
            lemma_forced_keeps_solutions(b, r, c, v);
            lemma_propagate_keeps_solutions(place(b, r, c, v));
        }
    }
}

/// Makes forced placements one after the other, for as long as the board is
/// valid, not yet complete, and offers one. Returns how many were made.
pub fn eliminate(board: &mut Board) -> (placed: usize)
    requires
        in_range(*old(board)),
    ensures
        *final(board) == propagate(*old(board)),
        placed == forced_steps(*old(board)),
        in_range(*final(board)),
{
    let mut placed: usize = 0;
    proof {
        lemma_empties_bound(*board, 81);
    }
    while !done(board) && is_valid(board)
        invariant
            in_range(*board),
            propagate(*board) == propagate(*old(board)),
            placed + forced_steps(*board) == forced_steps(*old(board)),
            placed + empties(*board) <= 81,
        decreases empties(*board),
    {
        let ghost before = *board;
        if !solve_one(board) {
            return placed;
        }
        proof {
            lemma_forced_move(before);
            let (r, c, v) = forced_move(before).unwrap();
            lemma_place_fills(before, r, c, v);
        }
        placed += 1;
    }
    placed
}

} // verus!

//! What the search finds: the board that the solver leaves is stated here
//! as a function of the board it is given.

use vstd::prelude::*;
use crate::candidates::candidates;
use crate::elimination::{lemma_propagate_fills, propagate, scan_index};
use crate::grid::{Board, cell, on_board, place};
use crate::solutions::{empties, has_empty, lemma_place_fills};
use crate::space::{describes, is_most_constrained, is_search_space, lists, Space};
use crate::validity::{board_complete, board_valid};

verus! {

/// The cell at `(r, c)` is the one that the search branches on: it is
/// empty, no empty cell has fewer candidates, and every empty cell that is
/// scanned before it has more.
pub open spec fn is_branch_cell(b: Board, r: int, c: int) -> bool {
    &&& on_board(r, c)
    &&& cell(b, r, c) == 0
    &&& forall|i: int, j: int|
        on_board(i, j) && cell(b, i, j) == 0 ==> candidates(b, r, c).len()
            <= #[trigger] candidates(b, i, j).len()
    &&& forall|i: int, j: int|
        on_board(i, j) && cell(b, i, j) == 0 && scan_index(i, j) < scan_index(r, c)
            ==> candidates(b, r, c).len() < #[trigger] candidates(b, i, j).len()
}

/// The cell that the search branches on, as row and column.
pub open spec fn branch_cell(b: Board) -> (int, int) {
    choose|p: (int, int)| is_branch_cell(b, p.0, p.1)
}

/// The first solution that the trials of the values from `v` to 9 in the
/// empty cell at `(r, c)` give, the values tried in rising order. A value is
/// tried only if it is a candidate of the cell, and a trial gives what the
/// solver leaves of the board with the value placed.
pub open spec fn first_success(b: Board, r: int, c: int, v: int) -> Option<Board>
    decreases empties(b), 0nat, 10 - v,
    via first_success_decreases
{
    if v < 1 || v > 9 || !on_board(r, c) || cell(b, r, c) != 0 {
        None
    } else if candidates(b, r, c).contains(v as i32) {
        match outcome(place(b, r, c, v as i32)) {
            Some(s) => Some(s),
            None => first_success(b, r, c, v + 1),
        }
    } else {
        first_success(b, r, c, v + 1)
    }
}

/// What the search by trial finds on the board: the first solution that the
/// trials in the branch cell give.
pub open spec fn search(b: Board) -> Option<Board>
    decreases empties(b), 1nat, 0int,
{
    if has_empty(b) {
        first_success(b, branch_cell(b).0, branch_cell(b).1, 1)
    } else {
        None
    }
}

/// What the solver finds on the board. The forced placements are made
/// first. If the board is then complete, it is the solution; if it is not
/// valid, there is none; otherwise the search decides.
pub open spec fn outcome(b: Board) -> Option<Board>
    decreases empties(b), 2nat, 0int,
    via outcome_decreases
{
    let p = propagate(b);
    if board_complete(p) {
        Some(p)
    } else if !board_valid(p) {
        None
    } else {
        search(p)
    }
}

#[via_fn]
proof fn first_success_decreases(b: Board, r: int, c: int, v: int) {
    if !(v < 1 || v > 9 || !on_board(r, c) || cell(b, r, c) != 0) {
        lemma_place_fills(b, r, c, v as i32);
    }
}

#[via_fn]
proof fn outcome_decreases(b: Board) {
    lemma_propagate_fills(b);
}

/// A board has one branch cell at most.
pub proof fn lemma_branch_cell_unique(b: Board, r: int, c: int, r2: int, c2: int)
    requires
        is_branch_cell(b, r, c),
        is_branch_cell(b, r2, c2),
    ensures
        r == r2,
        c == c2,
{
    if scan_index(r, c) < scan_index(r2, c2) {
        assert(candidates(b, r2, c2).len() < candidates(b, r, c).len());
        assert(candidates(b, r, c).len() <= candidates(b, r2, c2).len());
    }
    if scan_index(r2, c2) < scan_index(r, c) {
        assert(candidates(b, r, c).len() < candidates(b, r2, c2).len());
        assert(candidates(b, r2, c2).len() <= candidates(b, r, c).len());
    }
}

/// The first of the most constrained entries of a board's search space
/// names the board's branch cell.
pub proof fn lemma_branch_cell_listed(b: Board, space: Seq<Space>, k: int)
    requires
        is_search_space(space, b),
        is_most_constrained(space, k),
    ensures
        is_branch_cell(b, space[k].row as int, space[k].col as int),
        branch_cell(b) == (space[k].row as int, space[k].col as int),
        has_empty(b),
{
    let r = space[k].row as int;
    let c = space[k].col as int;
    assert(describes(space[k], b));
    assert forall|i: int, j: int| on_board(i, j) && cell(b, i, j) == 0 implies candidates(
        b,
        r,
        c,
    ).len() <= #[trigger] candidates(b, i, j).len() && (scan_index(i, j) < scan_index(r, c)
        ==> candidates(b, r, c).len() < candidates(b, i, j).len()) by {
        assert(lists(space, i, j));
        let m = choose|m: int| 0 <= m < space.len() && space[m].row == i && space[m].col == j;
        assert(describes(space[m], b));
        assert(space[k].opts.len() <= space[m].opts.len());
        if scan_index(i, j) < scan_index(r, c) {
            if k < m {
                assert(scan_index(space[k].row as int, space[k].col as int) < scan_index(
                    space[m].row as int,
                    space[m].col as int,
                ));
            }
            assert(m < k);
            assert(space[k].opts.len() < space[m].opts.len());
        }
    }
    assert(is_branch_cell(b, r, c));
    let p = branch_cell(b);
    assert(is_branch_cell(b, (r, c).0, (r, c).1));
    lemma_branch_cell_unique(b, r, c, p.0, p.1);
}

/// Values that are not candidates are passed over.
pub proof fn lemma_first_success_skips(b: Board, r: int, c: int, lo: int, hi: int)
    requires
        1 <= lo <= hi <= 10,
        forall|v: i32| lo <= v < hi ==> !candidates(b, r, c).contains(v),
    ensures
        first_success(b, r, c, lo) == first_success(b, r, c, hi),
    decreases hi - lo,
{
    if lo < hi {
        lemma_first_success_skips(b, r, c, lo + 1, hi);
        assert(!candidates(b, r, c).contains(lo as i32));
        if !on_board(r, c) || cell(b, r, c) != 0 {
            assert(first_success(b, r, c, lo) is None);
            lemma_first_success_off(b, r, c, hi);
        }
    }
}

/// On a cell that is not an empty cell of the board nothing is tried.
pub proof fn lemma_first_success_off(b: Board, r: int, c: int, v: int)
    requires
        !on_board(r, c) || cell(b, r, c) != 0,
    ensures
        first_success(b, r, c, v) is None,
{
}

} // verus!

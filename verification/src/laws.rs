//! Laws of the solver, stated over the outcome that `solve` promises.

use vstd::prelude::*;
use crate::candidates::{candidates, lemma_candidates};
use crate::grid::{
    Board,
    box_of,
    cell,
    col_of,
    in_range,
    lemma_board_ext,
    lemma_place,
    on_board,
    place,
    row_of,
};
use crate::solutions::{
    extends,
    is_solution_of,
    lemma_complete_solves_itself,
    lemma_solution_picks_candidate,
    solvable,
};
use crate::elimination::{
    first_tight,
    forced_move,
    forced_next,
    forced_steps,
    lemma_forced_move_is,
    lemma_place_in_range,
    propagate,
};
use crate::search::outcome;
use crate::solver::solve_outcome;
use crate::validity::{
    board_complete,
    board_valid,
    digits,
    lemma_complete_board,
    lemma_complete_unit_distinct,
    lemma_full_valid_board,
    unit_complete,
    unit_valid,
};

verus! {

/// After a successful run, every row, every column and every block holds,
/// as a set, exactly the digits 1 to 9.
pub proof fn lemma_success_is_complete(before: Board, after: Board)
    requires
        solve_outcome(before, after, true),
    ensures
        forall|i: int| 0 <= i < 9 ==> (#[trigger] row_of(after, i)).to_set() == digits(),
        forall|i: int| 0 <= i < 9 ==> (#[trigger] col_of(after, i)).to_set() == digits(),
        forall|rb: int, cb: int|
            0 <= rb < 3 && 0 <= cb < 3 ==> (#[trigger] box_of(after, rb, cb)).to_set() == digits(),
        extends(before, after),
{
    assert forall|i: int| 0 <= i < 9 implies (#[trigger] row_of(after, i)).to_set()
        == digits() by {
        assert(unit_complete(row_of(after, i)));
    }
    assert forall|i: int| 0 <= i < 9 implies (#[trigger] col_of(after, i)).to_set()
        == digits() by {
        assert(unit_complete(col_of(after, i)));
    }
    assert forall|rb: int, cb: int| 0 <= rb < 3 && 0 <= cb < 3 implies (#[trigger] box_of(
        after,
        rb,
        cb,
    )).to_set() == digits() by {
        assert(unit_complete(box_of(after, rb, cb)));
    }
}

/// A candidate of a cell occurs nowhere in the cell's row, nowhere in its
/// column and nowhere in its block.
pub proof fn lemma_candidate_is_absent(b: Board, r: int, c: int, v: i32)
    requires
        on_board(r, c),
        candidates(b, r, c).contains(v),
    ensures
        forall|j: int| 0 <= j < 9 ==> #[trigger] cell(b, r, j) != v,
        forall|i: int| 0 <= i < 9 ==> #[trigger] cell(b, i, c) != v,
        forall|i: int, j: int|
            on_board(i, j) && i / 3 == r / 3 && j / 3 == c / 3 ==> #[trigger] cell(b, i, j) != v,
{
    lemma_candidates(b, r, c);
    assert forall|j: int| 0 <= j < 9 implies #[trigger] cell(b, r, j) != v by {
        assert(row_of(b, r)[j] == cell(b, r, j));
    }
    assert forall|i: int| 0 <= i < 9 implies #[trigger] cell(b, i, c) != v by {
        assert(col_of(b, c)[i] == cell(b, i, c));
    }
    assert forall|i: int, j: int|
        on_board(i, j) && i / 3 == r / 3 && j / 3 == c / 3 implies #[trigger] cell(b, i, j)
        != v by {
        let k = (i % 3) * 3 + j % 3;
        assert((r / 3) * 3 + k / 3 == i && (c / 3) * 3 + k % 3 == j);
        assert(box_of(b, r / 3, c / 3)[k] == cell(b, i, j));
    }
}

/// On a complete board the solver succeeds and changes nothing: no forced
/// placement is made, and the board is the outcome without any search.
pub proof fn lemma_complete_is_kept(b: Board, after: Board, solved: bool)
    requires
        board_complete(b),
        solve_outcome(b, after, solved),
    ensures
        solved,
        after == b,
        forced_steps(b) == 0,
        propagate(b) == b,
        outcome(b) == Some(b),
{
    lemma_complete_solves_itself(b);
}

/// When the board has one solution and no other, the solver succeeds and
/// leaves that solution, whatever the order in which candidates are tried.
pub proof fn lemma_unique_solution_is_found(b: Board, only: Board, after: Board, solved: bool)
    requires
        is_solution_of(only, b),
        forall|s: Board| is_solution_of(s, b) ==> s == only,
        solve_outcome(b, after, solved),
    ensures
        solved,
        after == only,
{
}

/// On a board without a solution the solver fails.
pub proof fn lemma_unsolvable_fails(b: Board, after: Board, solved: bool)
    requires
        !solvable(b),
        solve_outcome(b, after, solved),
    ensures
        !solved,
        after == propagate(b),
{
}

/// A unit of nine cells in range with one empty cell, which holds each of
/// the digits 1 to 8 and none of them twice, does not hold 9, and is
/// complete once 9 stands in the empty cell.
pub proof fn lemma_unit_lacks_nine(s: Seq<i32>, k: int)
    requires
        s.len() == 9,
        0 <= k < 9,
        s[k] == 0,
        forall|j: int| 0 <= j < 9 && j != k ==> 1 <= #[trigger] s[j] <= 9,
        forall|v: i32| 1 <= v <= 8 ==> s.contains(v),
    ensures
        !s.contains(9),
        unit_complete(s.update(k, 9)),
        unit_valid(s.update(k, 9)),
{
    let t = s.update(k, 9);
    assert forall|v: i32| digits().contains(v) implies t.to_set().contains(v) by {
        if v == 9 {
            assert(t[k] == 9);
        } else {
            assert(s.contains(v));
            let j = choose|j: int| 0 <= j < s.len() && s[j] == v;
            assert(t[j] == v);
        }
    }
    assert forall|v: i32| t.to_set().contains(v) implies digits().contains(v) by {
        let j = choose|j: int| 0 <= j < t.len() && t[j] == v;
        if j != k {
            assert(1 <= s[j] <= 9);
        }
    }
    assert(t.to_set() =~= digits());
    lemma_complete_unit_distinct(t);
    if s.contains(9) {
        let j = choose|j: int| 0 <= j < s.len() && s[j] == 9;
        assert(t[j] == t[k]);
    }
}

/// A valid board whose one empty cell has each of the digits 1 to 8 in its
/// row, in its column and in its block is completed by placing 9 there:
/// that placement is the board's forced move, it is the one forced
/// placement of the run and completes the board, so that the outcome rests
/// on no search, and the solver succeeds with exactly that board.
pub proof fn lemma_last_cell_is_forced(b: Board, r: int, c: int, after: Board, solved: bool)
    requires
        in_range(b),
        board_valid(b),
        on_board(r, c),
        cell(b, r, c) == 0,
        forall|i: int, j: int| on_board(i, j) && !(i == r && j == c) ==> #[trigger] cell(b, i, j) != 0,
        forall|v: i32|
            1 <= v <= 8 ==> row_of(b, r).contains(v) && col_of(b, c).contains(v) && box_of(
                b,
                r / 3,
                c / 3,
            ).contains(v),
        solve_outcome(b, after, solved),
    ensures
        forced_move(b) == Some((r, c, 9i32)),
        forced_next(b) == Some(place(b, r, c, 9)),
        board_complete(place(b, r, c, 9)),
        forced_steps(b) == 1,
        propagate(b) == place(b, r, c, 9),
        outcome(b) == Some(place(b, r, c, 9)),
        solved,
        after == place(b, r, c, 9),
{
    let p = place(b, r, c, 9);
    lemma_place(b, r, c, 9);
    lemma_place_in_range(b, r, c, 9);
    lemma_candidates(b, r, c);
    let rb = r / 3;
    let cb = c / 3;
    let k = (r % 3) * 3 + c % 3;
    assert(rb * 3 + k / 3 == r && cb * 3 + k % 3 == c);
    // The three units of the cell lack 9 and are complete with it.
    let sr = row_of(b, r);
    assert forall|j: int| 0 <= j < 9 && j != c implies 1 <= #[trigger] sr[j] <= 9 by {
        assert(cell(b, r, j) != 0);
    }
    lemma_unit_lacks_nine(sr, c);
    assert(row_of(p, r) =~= sr.update(c, 9));
    let sc = col_of(b, c);
    assert forall|i: int| 0 <= i < 9 && i != r implies 1 <= #[trigger] sc[i] <= 9 by {
        assert(cell(b, i, c) != 0);
    }
    lemma_unit_lacks_nine(sc, r);
    assert(col_of(p, c) =~= sc.update(r, 9));
    let sb = box_of(b, rb, cb);
    assert forall|j: int| 0 <= j < 9 && j != k implies 1 <= #[trigger] sb[j] <= 9 by {
        assert(!(rb * 3 + j / 3 == r && cb * 3 + j % 3 == c));
        assert(cell(b, rb * 3 + j / 3, cb * 3 + j % 3) != 0);
    }
    assert forall|v: i32| 1 <= v <= 8 implies sb.contains(v) by {
        assert(row_of(b, r).contains(v));
    }
    lemma_unit_lacks_nine(sb, k);
    assert(box_of(p, rb, cb) =~= sb.update(k, 9)) by {
        assert forall|j: int| 0 <= j < 9 implies box_of(p, rb, cb)[j] == sb.update(k, 9)[j] by {
            if j != k {
                assert(!(rb * 3 + j / 3 == r && cb * 3 + j % 3 == c));
            }
        }
    }
    // So 9 is the cell's one candidate.
    assert(candidates(b, r, c) =~= set![9i32]) by {
        assert forall|v: i32| candidates(b, r, c).contains(v) implies v == 9 by {
            if v != 9 {
                assert(row_of(b, r).contains(v));
            }
        }
    }
    assert(candidates(b, r, c).len() == 1) by {
        broadcast use vstd::set::group_set_axioms;

    }
    assert(first_tight(b, r, c));
    lemma_forced_move_is(b, r, c, 9);
    // The board with 9 placed is valid, and full, so complete.
    assert forall|i: int| 0 <= i < 9 implies unit_valid(#[trigger] row_of(p, i)) by {
        if i != r {
            assert(row_of(p, i) =~= row_of(b, i));
        }
    }
    assert forall|j: int| 0 <= j < 9 implies unit_valid(#[trigger] col_of(p, j)) by {
        if j != c {
            assert(col_of(p, j) =~= col_of(b, j));
        }
    }
    assert forall|x: int, y: int| 0 <= x < 3 && 0 <= y < 3 implies unit_valid(
        #[trigger] box_of(p, x, y),
    ) by {
        if !(x == rb && y == cb) {
            assert(box_of(p, x, y) =~= box_of(b, x, y)) by {
                assert forall|j: int| 0 <= j < 9 implies box_of(p, x, y)[j] == box_of(b, x, y)[j] by {
                    assert(!(x * 3 + j / 3 == r && y * 3 + j % 3 == c));
                }
            }
        }
    }
    assert forall|i: int, j: int| on_board(i, j) implies 1 <= #[trigger] cell(p, i, j) <= 9 by {
        if !(i == r && j == c) {
            assert(cell(p, i, j) == cell(b, i, j));
            assert(cell(b, i, j) != 0);
        }
    }
    lemma_full_valid_board(p);
    // One forced placement ends the run.
    assert(!board_complete(b)) by {
        if board_complete(b) {
            lemma_complete_board(b);
        }
    }
    assert(propagate(p) == p);
    assert(propagate(b) == p);
    assert(forced_steps(p) == 0);
    assert(forced_steps(b) == 1);
    // The board with 9 placed is the one solution.
    assert(is_solution_of(p, b)) by {
        assert forall|i: int, j: int| on_board(i, j) && cell(b, i, j) != 0 implies #[trigger] cell(
            p,
            i,
            j,
        ) == cell(b, i, j) by {}
    }
    assert(solvable(b));
    lemma_solution_picks_candidate(after, b, r, c);
    assert forall|i: int, j: int| on_board(i, j) implies #[trigger] cell(after, i, j) == cell(
        p,
        i,
        j,
    ) by {
        if !(i == r && j == c) {
            assert(cell(b, i, j) != 0);
            assert(cell(p, i, j) == cell(b, i, j));
        }
    }
    lemma_board_ext(after, p);
}

} // verus!

//! What it means to solve a board, and the facts about solutions that the
//! solver rests on.

use vstd::prelude::*;
use crate::candidates::{candidates, lemma_candidates};
use crate::grid::{Board, box_of, cell, col_of, lemma_place, on_board, place, row_of};
use crate::validity::{
    board_complete,
    board_valid,
    lemma_complete_board,
    lemma_complete_unit_distinct,
    unit_valid,
};

verus! {

/// `b` keeps every filled cell of `a`.
pub open spec fn extends(a: Board, b: Board) -> bool {
    forall|r: int, c: int|
        on_board(r, c) && cell(a, r, c) != 0 ==> #[trigger] cell(b, r, c) == cell(a, r, c)
}

/// `s` is a complete board that keeps every filled cell of `b`.
pub open spec fn is_solution_of(s: Board, b: Board) -> bool {
    board_complete(s) && extends(b, s)
}

/// Some complete board keeps every filled cell of `b`.
pub open spec fn solvable(b: Board) -> bool {
    exists|s: Board| is_solution_of(s, b)
}

/// `a` and `b` have the same solutions.
pub open spec fn same_solutions(a: Board, b: Board) -> bool {
    forall|s: Board| is_solution_of(s, a) <==> is_solution_of(s, b)
}

/// The `k`-th cell of the board, counted row by row from 0.
pub open spec fn nth_cell(b: Board, k: int) -> i32 {
    cell(b, k / 9, k % 9)
}

/// The number of empty cells among the first `n` cells, counted row by row.
pub open spec fn empties_before(b: Board, n: int) -> nat
    decreases n,
{
    if n <= 0 {
        0
    } else {
        empties_before(b, n - 1) + if nth_cell(b, n - 1) == 0 {
            1nat
        } else {
            0nat
        }
    }
}

/// The number of empty cells of the board.
pub open spec fn empties(b: Board) -> nat {
    empties_before(b, 81)
}

/// Whether the board has an empty cell.
pub open spec fn has_empty(b: Board) -> bool {
    exists|r: int, c: int| on_board(r, c) && cell(b, r, c) == 0
}

/// No more cells are empty than are counted.
pub proof fn lemma_empties_bound(b: Board, n: int)
    requires
        0 <= n,
    ensures
        empties_before(b, n) <= n,
    decreases n,
{
    if n > 0 {
        lemma_empties_bound(b, n - 1);
    }
}

/// The count of empty cells is 0 exactly when none of the cells counted is
/// empty.
pub proof fn lemma_empties_none(b: Board, n: int)
    requires
        0 <= n <= 81,
    ensures
        empties_before(b, n) == 0 <==> forall|k: int|
            0 <= k < n ==> #[trigger] nth_cell(b, k) != 0,
    decreases n,
{
    if n > 0 {
        lemma_empties_none(b, n - 1);
    }
}

/// A board has an empty cell exactly when its count of empty cells is not 0.
pub proof fn lemma_has_empty(b: Board)
    ensures
        has_empty(b) <==> empties(b) > 0,
{
    lemma_empties_none(b, 81);
    if has_empty(b) {
        let (r, c) = choose|r: int, c: int| on_board(r, c) && cell(b, r, c) == 0;
        let k = r * 9 + c;
        assert(k / 9 == r && k % 9 == c);
        assert(nth_cell(b, k) == 0);
    }
    if empties(b) > 0 {
        let k = choose|k: int| 0 <= k < 81 && nth_cell(b, k) == 0;
        assert(on_board(k / 9, k % 9));
    }
}

/// Filling an empty cell leaves the count of the cells before it as it was
/// and lowers the count from that cell on by one.
pub proof fn lemma_empties_place(b: Board, r: int, c: int, v: i32, n: int)
    requires
        on_board(r, c),
        cell(b, r, c) == 0,
        v != 0,
        0 <= n <= 81,
    ensures
        empties_before(b, n) == empties_before(place(b, r, c, v), n) + if n > r * 9 + c {
            1nat
        } else {
            0nat
        },
    decreases n,
{
    lemma_place(b, r, c, v);
    if n > 0 {
        lemma_empties_place(b, r, c, v, n - 1);
        let k = n - 1;
        assert(on_board(k / 9, k % 9));
        if k == r * 9 + c {
            assert(k / 9 == r && k % 9 == c);
        } else {
            assert(!(k / 9 == r && k % 9 == c));
            assert(cell(place(b, r, c, v), k / 9, k % 9) == cell(b, k / 9, k % 9));
        }
    }
}

/// Filling an empty cell lowers the number of empty cells by one.
pub proof fn lemma_place_fills(b: Board, r: int, c: int, v: i32)
    requires
        on_board(r, c),
        cell(b, r, c) == 0,
        v != 0,
    ensures
        empties(b) == empties(place(b, r, c, v)) + 1,
{
    lemma_empties_place(b, r, c, v, 81);
}

/// A complete board solves itself, and nothing else solves it.
pub proof fn lemma_complete_solves_itself(b: Board)
    requires
        board_complete(b),
    ensures
        is_solution_of(b, b),
        forall|s: Board| is_solution_of(s, b) ==> s == b,
{
    lemma_complete_board(b);
    assert forall|s: Board| is_solution_of(s, b) implies s == b by {
        assert forall|r: int, c: int| on_board(r, c) implies #[trigger] cell(s, r, c) == cell(
            b,
            r,
            c,
        ) by {
            assert(1 <= cell(b, r, c) <= 9);
        }
        crate::grid::lemma_board_ext(s, b);
    }
}

/// A board that has a solution is valid.
pub proof fn lemma_solvable_is_valid(s: Board, b: Board)
    requires
        is_solution_of(s, b),
    ensures
        board_valid(b),
{
    assert forall|i: int| 0 <= i < 9 implies unit_valid(#[trigger] row_of(b, i)) by {
        let u = row_of(b, i);
        let w = row_of(s, i);
        lemma_complete_unit_distinct(w);
        assert forall|x: int, y: int| 0 <= x < y < u.len() && u[x] != 0 implies u[x] != u[y] by {
            if u[x] == u[y] {
                assert(cell(s, i, x) == cell(b, i, x));
                assert(cell(s, i, y) == cell(b, i, y));
                assert(w[x] == w[y]);
            }
        }
    }
    assert forall|i: int| 0 <= i < 9 implies unit_valid(#[trigger] col_of(b, i)) by {
        let u = col_of(b, i);
        let w = col_of(s, i);
        lemma_complete_unit_distinct(w);
        assert forall|x: int, y: int| 0 <= x < y < u.len() && u[x] != 0 implies u[x] != u[y] by {
            if u[x] == u[y] {
                assert(cell(s, x, i) == cell(b, x, i));
                assert(cell(s, y, i) == cell(b, y, i));
                assert(w[x] == w[y]);
            }
        }
    }
    assert forall|rb: int, cb: int| 0 <= rb < 3 && 0 <= cb < 3 implies unit_valid(
        #[trigger] box_of(b, rb, cb),
    ) by {
        let u = box_of(b, rb, cb);
        let w = box_of(s, rb, cb);
        lemma_complete_unit_distinct(w);
        assert forall|x: int, y: int| 0 <= x < y < u.len() && u[x] != 0 implies u[x] != u[y] by {
            if u[x] == u[y] {
                assert(cell(s, rb * 3 + x / 3, cb * 3 + x % 3) == cell(
                    b,
                    rb * 3 + x / 3,
                    cb * 3 + x % 3,
                ));
                assert(cell(s, rb * 3 + y / 3, cb * 3 + y % 3) == cell(
                    b,
                    rb * 3 + y / 3,
                    cb * 3 + y % 3,
                ));
                assert(w[x] == w[y]);
            }
        }
    }
}

/// In a solution, an empty cell of the board holds one of its candidates.
pub proof fn lemma_solution_picks_candidate(s: Board, b: Board, r: int, c: int)
    requires
        is_solution_of(s, b),
        on_board(r, c),
        cell(b, r, c) == 0,
    ensures
        candidates(b, r, c).contains(cell(s, r, c)),
{
    let w = cell(s, r, c);
    lemma_candidates(b, r, c);
    lemma_complete_board(s);
    let sr = row_of(s, r);
    lemma_complete_unit_distinct(sr);
    assert(sr[c] == w);
    if row_of(b, r).contains(w) {
        let j = choose|j: int| 0 <= j < 9 && row_of(b, r)[j] == w;
        assert(cell(b, r, j) == w);
        assert(cell(s, r, j) == w);
        assert(sr[j] == w);
    }
    let sc = col_of(s, c);
    lemma_complete_unit_distinct(sc);
    assert(sc[r] == w);
    if col_of(b, c).contains(w) {
        let j = choose|j: int| 0 <= j < 9 && col_of(b, c)[j] == w;
        assert(cell(b, j, c) == w);
        assert(cell(s, j, c) == w);
        assert(sc[j] == w);
    }
    let rb = r / 3;
    let cb = c / 3;
    let k = (r % 3) * 3 + c % 3;
    let sb = box_of(s, rb, cb);
    lemma_complete_unit_distinct(sb);
    assert(rb * 3 + k / 3 == r && cb * 3 + k % 3 == c);
    assert(sb[k] == w);
    if box_of(b, rb, cb).contains(w) {
        let j = choose|j: int| 0 <= j < 9 && box_of(b, rb, cb)[j] == w;
        assert(cell(b, rb * 3 + j / 3, cb * 3 + j % 3) == w);
        assert(cell(s, rb * 3 + j / 3, cb * 3 + j % 3) == w);
        assert(sb[j] == w);
    }
}

/// A solution of the board with one more cell filled solves the board too,
/// if that cell was empty.
pub proof fn lemma_solution_of_placed(s: Board, b: Board, r: int, c: int, v: i32)
    requires
        on_board(r, c),
        cell(b, r, c) == 0,
        is_solution_of(s, place(b, r, c, v)),
    ensures
        is_solution_of(s, b),
{
    lemma_place(b, r, c, v);
    let p = place(b, r, c, v);
    assert forall|i: int, j: int| on_board(i, j) && cell(b, i, j) != 0 implies #[trigger] cell(
        s,
        i,
        j,
    ) == cell(b, i, j) by {
        assert(cell(p, i, j) == cell(b, i, j));
    }
}

/// A solution of the board solves the board with an empty cell filled as
/// the solution has it.
pub proof fn lemma_solution_agrees(s: Board, b: Board, r: int, c: int)
    requires
        on_board(r, c),
        cell(b, r, c) == 0,
        is_solution_of(s, b),
    ensures
        is_solution_of(s, place(b, r, c, cell(s, r, c))),
{
    let v = cell(s, r, c);
    lemma_place(b, r, c, v);
    let p = place(b, r, c, v);
    assert forall|i: int, j: int| on_board(i, j) && cell(p, i, j) != 0 implies #[trigger] cell(
        s,
        i,
        j,
    ) == cell(p, i, j) by {
        if !(i == r && j == c) {
            assert(cell(p, i, j) == cell(b, i, j));
        }
    }
}

/// Filling an empty cell that has one candidate with that candidate neither
/// loses a solution nor adds one.
pub proof fn lemma_forced_keeps_solutions(b: Board, r: int, c: int, v: i32)
    requires
        on_board(r, c),
        cell(b, r, c) == 0,
        candidates(b, r, c).len() == 1,
        candidates(b, r, c).contains(v),
    ensures
        same_solutions(b, place(b, r, c, v)),
{
    let p = place(b, r, c, v);
    lemma_candidates(b, r, c);
    Set::lemma_is_singleton(candidates(b, r, c));
    assert forall|s: Board| is_solution_of(s, b) <==> is_solution_of(s, p) by {
        if is_solution_of(s, b) {
            lemma_solution_picks_candidate(s, b, r, c);
            assert(cell(s, r, c) == v);
            lemma_solution_agrees(s, b, r, c);
        }
        if is_solution_of(s, p) {
            lemma_solution_of_placed(s, b, r, c, v);
        }
    }
}

/// An empty cell without a candidate leaves the board without a solution.
pub proof fn lemma_dead_end(b: Board, r: int, c: int)
    requires
        on_board(r, c),
        cell(b, r, c) == 0,
        candidates(b, r, c).len() == 0,
    ensures
        !solvable(b),
{
    lemma_candidates(b, r, c);
    candidates(b, r, c).lemma_len0_is_empty();
    if solvable(b) {
        let s = choose|s: Board| is_solution_of(s, b);
        lemma_solution_picks_candidate(s, b, r, c);
    }
}

/// If the board has no solution with any candidate in an empty cell, it has
/// no solution.
pub proof fn lemma_branches_exhausted(b: Board, r: int, c: int)
    requires
        on_board(r, c),
        cell(b, r, c) == 0,
        forall|v: i32| candidates(b, r, c).contains(v) ==> !solvable(#[trigger] place(b, r, c, v)),
    ensures
        !solvable(b),
{
    if solvable(b) {
        let s = choose|s: Board| is_solution_of(s, b);
        lemma_solution_picks_candidate(s, b, r, c);
        lemma_solution_agrees(s, b, r, c);
        assert(solvable(place(b, r, c, cell(s, r, c))));
    }
}

} // verus!

//! The solver: forced placements until none is left, then a search that
//! tries the candidates of the most constrained cell and undoes each trial
//! that fails.

use vstd::prelude::*;
use crate::candidates::{candidates, lemma_candidates};
use crate::elimination::{
    eliminate,
    lemma_is_place,
    lemma_place_in_range,
    lemma_propagate_fills,
    lemma_propagate_keeps_solutions,
    propagate,
};
use crate::grid::{Board, cell, get_backup, in_range, on_board, place};
use crate::solutions::{
    empties,
    has_empty,
    is_solution_of,
    lemma_branches_exhausted,
    lemma_complete_solves_itself,
    lemma_dead_end,
    lemma_place_fills,
    lemma_solution_of_placed,
    lemma_solvable_is_valid,
    solvable,
};
use crate::search::{
    first_success,
    lemma_branch_cell_listed,
    lemma_first_success_skips,
    outcome,
    search,
};
use crate::space::{describes, lemma_sorted_head, lists, search_space, sort_space, stably_sorted};
use crate::validity::{done, is_valid, lemma_full_valid_board};

verus! {

/// Tries one value in an empty cell: places it, solves the board from there,
/// and on failure puts the board back as `backup` has it. The board is
/// either solved or exactly as it was.
pub fn try_candidate(board: &mut Board, backup: &Board, row: usize, col: usize, value: i32) -> (solved:
    bool)
    requires
        *old(board) == *backup,
        in_range(*backup),
        row < 9,
        col < 9,
        cell(*backup, row as int, col as int) == 0,
        1 <= value <= 9,
    ensures
        solved == solvable(place(*backup, row as int, col as int, value)),
        solved ==> outcome(place(*backup, row as int, col as int, value)) == Some(*final(board)),
        solved ==> is_solution_of(*final(board), place(*backup, row as int, col as int, value)),
        solved ==> is_solution_of(*final(board), *backup),
        !solved ==> outcome(place(*backup, row as int, col as int, value)) is None,
        !solved ==> *final(board) == *backup,
        in_range(*final(board)),
    decreases empties(*old(board)), 0nat,
{
    board[row][col] = value;
    proof {
        lemma_is_place(*backup, *board, row as int, col as int, value);
        lemma_place_in_range(*backup, row as int, col as int, value);
        lemma_place_fills(*backup, row as int, col as int, value);
    }
    if solve(board) {
        proof {
            lemma_solution_of_placed(*board, *backup, row as int, col as int, value);
        }
        true
    } else {
        *board = *backup;
        false
    }
}

/// Searches for a solution by trial. The empty cells are listed with their
/// candidates and the list is put in order of rising candidate count, so
/// that it begins with the first of the most constrained cells. The
/// candidates of that cell are tried in rising order, and the first trial
/// that solves the board ends the search. When no trial does, or the cell
/// has no candidate, the board is as it was.
pub fn backtrack(board: &mut Board) -> (solved: bool)
    requires
        in_range(*old(board)),
        has_empty(*old(board)),
    ensures
        solved == solvable(*old(board)),
        solved ==> search(*old(board)) == Some(*final(board)),
        solved ==> is_solution_of(*final(board), *old(board)),
        !solved ==> search(*old(board)) is None,
        !solved ==> *final(board) == *old(board),
        in_range(*final(board)),
    decreases empties(*old(board)), 1nat,
{
    let mut space = search_space(board);
    let ghost listed = space@;
    proof {
        let (r, c) = choose|r: int, c: int| on_board(r, c) && cell(*board, r, c) == 0;
        assert(lists(listed, r, c));
    }
    sort_space(&mut space);
    let s = &space[0];
    let ghost r = s.row as int;
    let ghost c = s.col as int;
    proof {
        let origin = choose|origin: Seq<int>| stably_sorted(listed, space@, origin);
        lemma_sorted_head(listed, space@, origin);
        lemma_branch_cell_listed(*board, listed, origin[0]);
        assert(describes(*s, *board));
        assert(search(*board) == first_success(*board, r, c, 1));
        lemma_candidates(*board, r, c);
    }
    if s.opts.len() == 0 {
        proof {
            lemma_dead_end(*board, r, c);
            candidates(*board, r, c).lemma_len0_is_empty();
            lemma_first_success_skips(*board, r, c, 1, 10);
        }
        return false;
    }
    let backup = get_backup(board);
    proof {
        assert forall|x: int| 0 <= x < s.opts@.len() implies (#[trigger] s.opts@[x]) >= 1 by {
            assert(s.opts@.to_set().contains(s.opts@[x]));
        }
    }
    let mut k: usize = 0;
    // Every candidate below `tried` has been tried.
    let ghost mut tried: int = 1;
    while k < s.opts.len()
        invariant
            k <= s.opts@.len(),
            *board == backup,
            backup == *old(board),
            in_range(backup),
            describes(*s, backup),
            r == s.row,
            c == s.col,
            forall|x: int|
                0 <= x < k ==> !solvable(#[trigger] place(backup, r, c, s.opts@[x])),
            1 <= tried <= 10,
            forall|x: int| 0 <= x < k ==> (#[trigger] s.opts@[x]) < tried,
            forall|x: int| k <= x < s.opts@.len() ==> (#[trigger] s.opts@[x]) >= tried,
            search(backup) == first_success(backup, r, c, tried),
        decreases s.opts@.len() - k,
    {
        let o = s.opts[k];
        proof {
            lemma_candidates(backup, r, c);
            assert(s.opts@.to_set().contains(s.opts@[k as int]));
            assert forall|w: i32| tried <= w < o implies !candidates(backup, r, c).contains(w) by {
                if candidates(backup, r, c).contains(w) {
                    assert(s.opts@.to_set().contains(w));
                    let x = choose|x: int| 0 <= x < s.opts@.len() && s.opts@[x] == w;
                    if x >= k {
                        assert(s.opts@[k as int] <= s.opts@[x]);
                    }
                }
            }
            lemma_first_success_skips(backup, r, c, tried, o as int);
        }
        if try_candidate(board, &backup, s.row, s.col, o) {
            proof {
                assert(first_success(backup, r, c, o as int) == Some(*board));
            }
            return true;
        }
        proof {
            assert(first_success(backup, r, c, o as int) == first_success(backup, r, c, o + 1));
            tried = o + 1;
            assert forall|x: int| k + 1 <= x < s.opts@.len() implies (#[trigger] s.opts@[x])
                >= tried by {
                assert(s.opts@[k as int] < s.opts@[x]);
            }
        }
        k += 1;
    }
    proof {
        assert forall|v: i32| candidates(backup, r, c).contains(v) implies !solvable(
            #[trigger] place(backup, r, c, v),
        ) by {
            assert(s.opts@.to_set().contains(v));
            let x = choose|x: int| 0 <= x < s.opts@.len() && s.opts@[x] == v;
            assert(!solvable(place(backup, r, c, s.opts@[x])));
        }
        lemma_branches_exhausted(backup, r, c);
        assert forall|w: i32| tried <= w < 10 implies !candidates(backup, r, c).contains(w) by {
            if candidates(backup, r, c).contains(w) {
                assert(s.opts@.to_set().contains(w));
                let x = choose|x: int| 0 <= x < s.opts@.len() && s.opts@[x] == w;
                assert(s.opts@[x] < tried);
            }
        }
        lemma_first_success_skips(backup, r, c, tried, 10);
    }
    false
}

/// How a run of the solver ends. It succeeds exactly when the board it was
/// given has a solution, and then leaves the solution that the search finds
/// first. When it fails, it leaves the board with the forced placements made
/// and nothing else changed.
pub open spec fn solve_outcome(before: Board, after: Board, solved: bool) -> bool {
    &&& solved == solvable(before)
    &&& solved ==> outcome(before) == Some(after)
    &&& solved ==> is_solution_of(after, before)
    &&& !solved ==> outcome(before) is None
    &&& !solved ==> after == propagate(before)
}

/// Solves the board, or finds that it cannot be solved.
///
/// Forced placements are made for as long as the board is valid, not yet
/// complete, and offers one. A board that is then complete is solved, and
/// one that is not valid cannot be; on any other the search takes over.
/// The result tells whether the board has a solution at all. If it has, the
/// board ends as a solution: the one that the search comes to first. If it
/// has none, the board ends with the forced placements made and nothing
/// else changed.
pub fn solve(board: &mut Board) -> (solved: bool)
    requires
        in_range(*old(board)),
    ensures
        solve_outcome(*old(board), *final(board), solved),
        in_range(*final(board)),
    decreases empties(*old(board)), 2nat,
{
    eliminate(board);
    proof {
        lemma_propagate_fills(*old(board));
        lemma_propagate_keeps_solutions(*old(board));
    }
    if done(board) {
        proof {
            lemma_complete_solves_itself(*board);
        }
        true
    } else if !is_valid(board) {
        proof {
            if solvable(*board) {
                let w = choose|w: Board| is_solution_of(w, *board);
                lemma_solvable_is_valid(w, *board);
            }
        }
        false
    } else {
        proof {
            if !has_empty(*board) {
                assert forall|r: int, c: int| on_board(r, c) implies 1 <= #[trigger] cell(
                    *board,
                    r,
                    c,
                ) <= 9 by {
                    assert(cell(*board, r, c) != 0);
                }
                lemma_full_valid_board(*board);
            }
        }
        backtrack(board)
    }
}

} // verus!

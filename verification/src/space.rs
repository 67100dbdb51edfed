//! The search space: the empty cells of a board with their candidates, and
//! the order in which the search looks at them.

use vstd::prelude::*;
use crate::candidates::{ascending, candidate_list, candidates};
use crate::elimination::scan_index;
use crate::grid::{Board, cell, on_board};

verus! {

/// An empty cell together with its candidates: one entry of the list that
/// the search chooses from.
pub struct Space {
    /// The cell's row.
    pub row: usize,
    /// The cell's column.
    pub col: usize,
    /// The cell's candidates, smallest first.
    pub opts: Vec<i32>,
}

/// The entry names an empty cell of the board and lists that cell's
/// candidates, smallest first.
pub open spec fn describes(sp: Space, b: Board) -> bool {
    &&& sp.row < 9
    &&& sp.col < 9
    &&& cell(b, sp.row as int, sp.col as int) == 0
    &&& ascending(sp.opts@)
    &&& sp.opts@.to_set() == candidates(b, sp.row as int, sp.col as int)
    &&& sp.opts@.len() == candidates(b, sp.row as int, sp.col as int).len()
}

/// The list has an entry for the cell at `(r, c)`.
pub open spec fn lists(space: Seq<Space>, r: int, c: int) -> bool {
    exists|k: int| 0 <= k < space.len() && space[k].row == r && space[k].col == c
}

/// The list holds one entry for each empty cell of the board and no other,
/// in the order in which the board is scanned.
pub open spec fn is_search_space(space: Seq<Space>, b: Board) -> bool {
    &&& forall|k: int| 0 <= k < space.len() ==> describes(#[trigger] space[k], b)
    &&& forall|k: int, m: int|
        0 <= k < m < space.len() ==> scan_index(
            (#[trigger] space[k]).row as int,
            space[k].col as int,
        ) < scan_index((#[trigger] space[m]).row as int, space[m].col as int)
    &&& forall|r: int, c: int|
        on_board(r, c) && cell(b, r, c) == 0 ==> #[trigger] lists(space, r, c)
}

/// `k` is the first entry of the list with the fewest candidates: no entry
/// has fewer, and every entry before it has more.
pub open spec fn is_most_constrained(space: Seq<Space>, k: int) -> bool {
    &&& 0 <= k < space.len()
    &&& forall|m: int| 0 <= m < space.len() ==> space[k].opts.len() <= (#[trigger] space[m]).opts.len()
    &&& forall|m: int| 0 <= m < k ==> space[k].opts.len() < (#[trigger] space[m]).opts.len()
}

/// Lists the empty cells of the board, each with its candidates, in the
/// order in which the board is scanned.
pub fn search_space(board: &Board) -> (space: Vec<Space>)
    ensures
        is_search_space(space@, *board),
{
    let mut space: Vec<Space> = Vec::new();
    let mut r: usize = 0;
    while r < 9
        invariant
            r <= 9,
            forall|k: int| 0 <= k < space@.len() ==> describes(#[trigger] space@[k], *board),
            forall|k: int, m: int|
                0 <= k < m < space@.len() ==> scan_index(
                    (#[trigger] space@[k]).row as int,
                    space@[k].col as int,
                ) < scan_index((#[trigger] space@[m]).row as int, space@[m].col as int),
            forall|k: int|
                0 <= k < space@.len() ==> scan_index(
                    (#[trigger] space@[k]).row as int,
                    space@[k].col as int,
                ) < scan_index(r as int, 0),
            forall|i: int, j: int|
                on_board(i, j) && scan_index(i, j) < scan_index(r as int, 0) && cell(*board, i, j)
                    == 0 ==> #[trigger] lists(space@, i, j),
        decreases 9 - r,
    {
        let mut c: usize = 0;
        while c < 9
            invariant
                r < 9,
                c <= 9,
                forall|k: int| 0 <= k < space@.len() ==> describes(#[trigger] space@[k], *board),
                forall|k: int, m: int|
                    0 <= k < m < space@.len() ==> scan_index(
                        (#[trigger] space@[k]).row as int,
                        space@[k].col as int,
                    ) < scan_index((#[trigger] space@[m]).row as int, space@[m].col as int),
                forall|k: int|
                    0 <= k < space@.len() ==> scan_index(
                        (#[trigger] space@[k]).row as int,
                        space@[k].col as int,
                    ) < scan_index(r as int, c as int),
                forall|i: int, j: int|
                    on_board(i, j) && scan_index(i, j) < scan_index(r as int, c as int) && cell(
                        *board,
                        i,
                        j,
                    ) == 0 ==> #[trigger] lists(space@, i, j),
            decreases 9 - c,
        {
            if board[r][c] == 0 {
                let opts = candidate_list(board, r, c);
                let ghost before = space@;
                space.push(Space { row: r, col: c, opts });
                proof {
                    assert(space@[before.len() as int].row == r);
                    assert forall|i: int, j: int|
                        on_board(i, j) && scan_index(i, j) < scan_index(r as int, c + 1) && cell(
                            *board,
                            i,
                            j,
                        ) == 0 implies #[trigger] lists(space@, i, j) by {
                        if i == r && j == c {
                            assert(space@[before.len() as int].col == c);
                        } else {
                            assert(lists(before, i, j));
                            let k = choose|k: int|
                                0 <= k < before.len() && before[k].row == i && before[k].col == j;
                            assert(space@[k] == before[k]);
                        }
                    }
                }
            }
            c += 1;
        }
        r += 1;
    }
    space
}

/// Entry `a` of the list goes before entry `b` in the sorted list: it has
/// fewer candidates, or as many and stands before `b` in the list.
pub open spec fn comes_before(list: Seq<Space>, a: int, b: int) -> bool {
    list[a].opts@.len() < list[b].opts@.len() || (list[a].opts@.len() == list[b].opts@.len() && a
        < b)
}

/// `sorted` is `list` put in order of rising candidate count, entries of
/// equal count left in the order they had. `origin` tells, for each place of
/// `sorted`, the place in `list` that its entry came from; every place of
/// `list` is the origin of one.
pub open spec fn stably_sorted(list: Seq<Space>, sorted: Seq<Space>, origin: Seq<int>) -> bool {
    &&& sorted.len() == list.len()
    &&& origin.len() == list.len()
    &&& forall|k: int|
        0 <= k < origin.len() ==> 0 <= #[trigger] origin[k] < list.len() && sorted[k]
            == list[origin[k]]
    &&& forall|m: int| 0 <= m < list.len() ==> #[trigger] origin.contains(m)
    &&& forall|k: int, m: int|
        0 <= k < m < origin.len() ==> comes_before(list, #[trigger] origin[k], #[trigger] origin[m])
}

/// A sequence with the entry at `i` moved down to `j`, the entries between
/// the two moved up by one.
pub open spec fn moved<A>(s: Seq<A>, i: int, j: int) -> Seq<A> {
    s.remove(i).insert(j, s[i])
}

/// Where each entry stands after a move.
pub proof fn lemma_moved<A>(s: Seq<A>, i: int, j: int)
    requires
        0 <= j <= i < s.len(),
    ensures
        moved(s, i, j).len() == s.len(),
        moved(s, i, j)[j] == s[i],
        forall|k: int| 0 <= k < j ==> #[trigger] moved(s, i, j)[k] == s[k],
        forall|k: int| j < k <= i ==> #[trigger] moved(s, i, j)[k] == s[k - 1],
        forall|k: int| i < k < s.len() ==> #[trigger] moved(s, i, j)[k] == s[k],
{
    s.remove_ensures(i);
    s.remove(i).insert_ensures(j, s[i]);
    let r = s.remove(i);
    let t = r.insert(j, s[i]);
    assert forall|k: int| j < k <= i implies #[trigger] t[k] == s[k - 1] by {
        assert(r.insert(j, s[i])[(k - 1) + 1] == r[k - 1]);
    }
    assert forall|k: int| i < k < s.len() implies #[trigger] t[k] == s[k] by {
        assert(r.insert(j, s[i])[(k - 1) + 1] == r[k - 1]);
    }
}

/// The sorted list begins with the first entry of the list that has the
/// fewest candidates.
pub proof fn lemma_sorted_head(list: Seq<Space>, sorted: Seq<Space>, origin: Seq<int>)
    requires
        stably_sorted(list, sorted, origin),
        list.len() > 0,
    ensures
        is_most_constrained(list, origin[0]),
        sorted[0] == list[origin[0]],
{
    let h = origin[0];
    assert forall|m: int| 0 <= m < list.len() && m != h implies comes_before(list, h, m) by {
        assert(origin.contains(m));
        let k = choose|k: int| 0 <= k < origin.len() && origin[k] == m;
        assert(comes_before(list, origin[0], origin[k]));
    }
    assert forall|m: int| 0 <= m < list.len() implies list[h].opts.len() <= (
    #[trigger] list[m]).opts.len() by {
        if m != h {
            assert(comes_before(list, h, m));
        }
    }
    assert forall|m: int| 0 <= m < h implies list[h].opts.len() < (#[trigger] list[m]).opts.len() by {
        assert(comes_before(list, h, m));
    }
}

/// Puts the list in order of rising candidate count. Entries with the same
/// count keep the order they had, so the list then begins with the first of
/// the most constrained cells.
pub fn sort_space(space: &mut Vec<Space>)
    ensures
        exists|origin: Seq<int>| stably_sorted(old(space)@, final(space)@, origin),
{
    let n = space.len();
    let ghost list = space@;
    let ghost mut origin: Seq<int> = Seq::new(n as nat, |k: int| k);
    let mut i: usize = 0;
    proof {
        assert forall|m: int| 0 <= m < list.len() implies #[trigger] origin.contains(m) by {
            assert(origin[m] == m);
        }
    }
    while i < n
        invariant
            i <= n,
            list == old(space)@,
            space@.len() == n,
            list.len() == n,
            origin.len() == n,
            forall|k: int|
                0 <= k < n ==> 0 <= #[trigger] origin[k] < n && space@[k] == list[origin[k]],
            forall|m: int| 0 <= m < n ==> #[trigger] origin.contains(m),
            forall|k: int| i <= k < n ==> #[trigger] origin[k] == k,
            forall|k: int| 0 <= k < i ==> #[trigger] origin[k] < i,
            forall|k: int, m: int|
                0 <= k < m < i ==> comes_before(list, #[trigger] origin[k], #[trigger] origin[m]),
        decreases n - i,
    {
        let count = space[i].opts.len();
        let mut j: usize = i;
        while j > 0 && space[j - 1].opts.len() > count
            invariant
                0 <= j <= i < n,
                space@.len() == n,
                count == space@[i as int].opts@.len(),
                forall|k: int| j <= k < i ==> (#[trigger] space@[k]).opts@.len() > count,
            decreases j,
        {
            j -= 1;
        }
        let ghost before = space@;
        let ghost origin_before = origin;
        if j < i {
            let entry = space.remove(i);
            space.insert(j, entry);
            proof {
                origin = moved(origin_before, i as int, j as int);
            }
        }
        proof {
            if j < i {
                assert(space@ == moved(before, i as int, j as int));
                lemma_moved(before, i as int, j as int);
                lemma_moved(origin_before, i as int, j as int);
            }
            // Each entry is still the one its origin names.
            assert forall|k: int| 0 <= k < n implies 0 <= #[trigger] origin[k] < n && space@[k]
                == list[origin[k]] by {
                if j < i {
                    if k < j {
                        assert(origin[k] == origin_before[k]);
                    } else if k == j {
                        assert(origin[k] == origin_before[i as int]);
                    } else if k <= i {
                        assert(origin[k] == origin_before[k - 1]);
                    } else {
                        assert(origin[k] == origin_before[k]);
                    }
                }
            }
            // Every place of the list is still an origin.
            assert forall|m: int| 0 <= m < n implies #[trigger] origin.contains(m) by {
                assert(origin_before.contains(m));
                let k = choose|k: int| 0 <= k < origin_before.len() && origin_before[k] == m;
                if j < i {
                    if k < j {
                        assert(origin[k] == m);
                    } else if k < i {
                        assert(origin[k + 1] == origin_before[(k + 1) - 1]);
                    } else if k == i {
                        assert(origin[j as int] == m);
                    } else {
                        assert(origin[k] == m);
                    }
                }
            }
            assert forall|k: int| i + 1 <= k < n implies #[trigger] origin[k] == k by {
                assert(origin_before[k] == k);
            }
            assert forall|k: int| 0 <= k < i + 1 implies #[trigger] origin[k] < i + 1 by {
                if j < i {
                    if k < j {
                        assert(origin[k] == origin_before[k]);
                    } else if k == j {
                        assert(origin[k] == origin_before[i as int]);
                    } else {
                        assert(origin[k] == origin_before[k - 1]);
                    }
                } else {
                    assert(origin[k] == origin_before[k]);
                }
            }
            // The entries up to the one just placed are in order.
            assert(origin_before[i as int] == i);
            assert forall|k: int| 0 <= k < j implies comes_before(
                list,
                #[trigger] origin_before[k],
                i as int,
            ) by {
                assert(origin_before[k] < i);
                if k < j - 1 {
                    assert(comes_before(list, origin_before[k], origin_before[j - 1]));
                }
                assert(before[j - 1] == list[origin_before[j - 1]]);
                assert(before[k] == list[origin_before[k]]);
                assert(before[i as int] == list[i as int]);
            }
            assert forall|k: int| j <= k < i implies comes_before(
                list,
                i as int,
                #[trigger] origin_before[k],
            ) by {
                assert(before[k].opts@.len() > count);
                assert(before[k] == list[origin_before[k]]);
                assert(before[i as int] == list[i as int]);
            }
            assert forall|k: int, m: int| 0 <= k < m < i + 1 implies comes_before(
                list,
                #[trigger] origin[k],
                #[trigger] origin[m],
            ) by {
                if j < i {
                    if m < j {
                        assert(origin[k] == origin_before[k] && origin[m] == origin_before[m]);
                    } else if m == j {
                        assert(origin[k] == origin_before[k] && origin[m] == i);
                    } else if k < j {
                        assert(origin[k] == origin_before[k] && origin[m] == origin_before[m - 1]);
                    } else if k == j {
                        assert(origin[k] == i && origin[m] == origin_before[m - 1]);
                    } else {
                        assert(origin[k] == origin_before[k - 1] && origin[m] == origin_before[m
                            - 1]);
                    }
                } else {
                    if m == i {
                        assert(origin[m] == i && origin[k] == origin_before[k]);
                    }
                }
            }
        }
        i += 1;
    }
    proof {
        assert(stably_sorted(old(space)@, space@, origin));
    }
}

} // verus!

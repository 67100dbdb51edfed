//! Validity and completeness of units and of whole boards.
//!
//! A unit is a row, a column or a 3×3 block, read as a sequence of nine
//! cells. A unit is valid when no digit occurs in it twice; it is complete
//! when its cells, taken as a set, are exactly the digits 1 to 9.

use vstd::prelude::*;
use crate::grid::{Board, box_of, cell, col_of, get_box, get_col, get_row, in_range, on_board, row_of};

verus! {

/// The digits that a filled cell may hold.
pub open spec fn digits() -> Set<i32> {
    Set::new(|v: i32| 1 <= v <= 9)
}

/// Every entry of the unit is 0 or a digit.
pub open spec fn unit_in_range(s: Seq<i32>) -> bool {
    forall|i: int| 0 <= i < s.len() ==> 0 <= #[trigger] s[i] <= 9
}

/// No nonzero value occurs twice in the unit. Zeros may repeat.
pub open spec fn unit_valid(s: Seq<i32>) -> bool {
    forall|i: int, j: int| 0 <= i < j < s.len() && s[i] != 0 ==> s[i] != s[j]
}

/// The unit's entries, as a set, are exactly the digits 1 to 9.
pub open spec fn unit_complete(s: Seq<i32>) -> bool {
    s.to_set() == digits()
}

/// Every row, every column and every block is valid.
pub open spec fn board_valid(b: Board) -> bool {
    &&& forall|i: int| 0 <= i < 9 ==> unit_valid(#[trigger] row_of(b, i))
    &&& forall|i: int| 0 <= i < 9 ==> unit_valid(#[trigger] col_of(b, i))
    &&& forall|rb: int, cb: int|
        0 <= rb < 3 && 0 <= cb < 3 ==> unit_valid(#[trigger] box_of(b, rb, cb))
}

/// Every row, every column and every block is complete.
pub open spec fn board_complete(b: Board) -> bool {
    &&& forall|i: int| 0 <= i < 9 ==> unit_complete(#[trigger] row_of(b, i))
    &&& forall|i: int| 0 <= i < 9 ==> unit_complete(#[trigger] col_of(b, i))
    &&& forall|rb: int, cb: int|
        0 <= rb < 3 && 0 <= cb < 3 ==> unit_complete(#[trigger] box_of(b, rb, cb))
}

/// How often `v` occurs among the first `n` entries of `s`.
pub open spec fn occurrences(s: Seq<i32>, v: i32, n: int) -> nat
    decreases n,
{
    if n <= 0 {
        0
    } else {
        occurrences(s, v, n - 1) + if s[n - 1] == v {
            1nat
        } else {
            0nat
        }
    }
}

/// `v` does not occur among the first `n` entries exactly when its count is 0.
pub proof fn lemma_occurrences_none(s: Seq<i32>, v: i32, n: int)
    requires
        0 <= n <= s.len(),
    ensures
        occurrences(s, v, n) <= n,
        occurrences(s, v, n) == 0 <==> forall|k: int| 0 <= k < n ==> s[k] != v,
    decreases n,
{
    if n > 0 {
        lemma_occurrences_none(s, v, n - 1);
    }
}

/// `v` occurs at two places among the first `n` entries exactly when its
/// count is 2 or more.
pub proof fn lemma_occurrences_twice(s: Seq<i32>, v: i32, n: int)
    requires
        0 <= n <= s.len(),
    ensures
        occurrences(s, v, n) >= 2 <==> exists|i: int, j: int|
            0 <= i < j < n && s[i] == v && s[j] == v,
    decreases n,
{
    if n > 0 {
        lemma_occurrences_twice(s, v, n - 1);
        lemma_occurrences_none(s, v, n - 1);
        if occurrences(s, v, n) >= 2 {
            if occurrences(s, v, n - 1) >= 2 {
                let (i, j) = choose|i: int, j: int|
                    0 <= i < j < n - 1 && s[i] == v && s[j] == v;
                assert(0 <= i < j < n && s[i] == v && s[j] == v);
            } else {
                assert(s[n - 1] == v);
                assert(occurrences(s, v, n - 1) != 0);
                let i = choose|k: int| 0 <= k < n - 1 && s[k] == v;
                assert(0 <= i < n - 1 < n && s[i] == v && s[n - 1] == v);
            }
        }
        if exists|i: int, j: int| 0 <= i < j < n && s[i] == v && s[j] == v {
            let (i, j) = choose|i: int, j: int| 0 <= i < j < n && s[i] == v && s[j] == v;
            if j < n - 1 {
                assert(0 <= i < j < n - 1 && s[i] == v && s[j] == v);
            } else {
                assert(s[i] == v && 0 <= i < n - 1);
            }
        }
    }
}

/// A unit in range is valid exactly when no digit is counted twice in it.
pub proof fn lemma_valid_by_count(s: Seq<i32>)
    requires
        unit_in_range(s),
    ensures
        unit_valid(s) <==> forall|v: i32| 1 <= v <= 9 ==> #[trigger] occurrences(
            s,
            v,
            s.len() as int,
        ) <= 1,
{
    let n = s.len() as int;
    if unit_valid(s) {
        assert forall|v: i32| 1 <= v <= 9 implies #[trigger] occurrences(s, v, n) <= 1 by {
            lemma_occurrences_twice(s, v, n);
        }
    }
    if forall|v: i32| 1 <= v <= 9 ==> #[trigger] occurrences(s, v, n) <= 1 {
        assert forall|i: int, j: int| 0 <= i < j < s.len() && s[i] != 0 implies s[i] != s[j] by {
            if s[i] == s[j] {
                let v = s[i];
                lemma_occurrences_twice(s, v, n);
                assert(occurrences(s, v, n) <= 1);
            }
        }
    }
}

/// Whether no digit occurs twice among the nine values; zeros are ignored.
/// The occurrences of each digit are counted, and a count above 1 rejects.
pub fn is_valid_set(set: [i32; 9]) -> (ok: bool)
    requires
        unit_in_range(set@),
    ensures
        ok == unit_valid(set@),
{
    let mut counts: [i32; 9] = [0i32; 9];
    let mut i: usize = 0;
    while i < 9
        invariant
            i <= 9,
            unit_in_range(set@),
            forall|v: i32|
                1 <= v <= 9 ==> counts[v - 1] == #[trigger] occurrences(set@, v, i as int),
        decreases 9 - i,
    {
        let v = set[i];
        if v > 0 {
            let p: usize = (v - 1) as usize;
            proof {
                lemma_occurrences_none(set@, v, i as int);
            }
            assert(counts[p as int] == occurrences(set@, v, i as int));
            counts[p] = counts[p] + 1;
        }
        proof {
            assert forall|w: i32| 1 <= w <= 9 implies counts[w - 1] == #[trigger] occurrences(
                set@,
                w,
                i + 1,
            ) by {
                assert(occurrences(set@, w, i + 1) == occurrences(set@, w, i as int) + if set@[i as int]
                    == w {
                    1nat
                } else {
                    0nat
                });
            }
        }
        i += 1;
    }
    proof {
        lemma_valid_by_count(set@);
    }
    let mut k: usize = 0;
    while k < 9
        invariant
            k <= 9,
            forall|v: i32| 1 <= v <= 9 ==> counts[v - 1] == #[trigger] occurrences(set@, v, 9),
            forall|v: i32| 1 <= v <= k ==> #[trigger] occurrences(set@, v, 9) <= 1,
            unit_valid(set@) <==> forall|v: i32|
                1 <= v <= 9 ==> #[trigger] occurrences(set@, v, 9) <= 1,
        decreases 9 - k,
    {
        assert(counts[k as int] == occurrences(set@, (k + 1) as i32, 9));
        if counts[k] > 1 {
            return false;
        }
        k += 1;
    }
    true
}

/// Whether the nine values, taken as a set, are exactly the digits 1 to 9.
pub fn is_complete_set(set: [i32; 9]) -> (ok: bool)
    ensures
        ok == unit_complete(set@),
{
    let mut seen: [bool; 9] = [false; 9];
    let mut i: usize = 0;
    while i < 9
        invariant
            i <= 9,
            forall|k: int| 0 <= k < i ==> 1 <= #[trigger] set@[k] <= 9,
            forall|v: i32|
                1 <= v <= 9 ==> (seen[v - 1] <==> #[trigger] occurrences(set@, v, i as int) > 0),
        decreases 9 - i,
    {
        let v = set[i];
        if v < 1 || v > 9 {
            proof {
                assert(set@.to_set().contains(set@[i as int]));
                assert(!digits().contains(v));
            }
            return false;
        }
        seen[(v - 1) as usize] = true;
        proof {
            assert forall|w: i32| 1 <= w <= 9 implies (seen[w - 1] <==> #[trigger] occurrences(
                set@,
                w,
                i + 1,
            ) > 0) by {
                assert(occurrences(set@, w, i + 1) == occurrences(set@, w, i as int) + if set@[i as int]
                    == w {
                    1nat
                } else {
                    0nat
                });
            }
        }
        i += 1;
    }
    let mut k: usize = 0;
    while k < 9
        invariant
            k <= 9,
            forall|j: int| 0 <= j < 9 ==> 1 <= #[trigger] set@[j] <= 9,
            forall|v: i32|
                1 <= v <= 9 ==> (seen[v - 1] <==> #[trigger] occurrences(set@, v, 9) > 0),
            forall|v: i32| 1 <= v <= k ==> #[trigger] occurrences(set@, v, 9) > 0,
        decreases 9 - k,
    {
        let ghost v = (k + 1) as i32;
        assert(seen[k as int] <==> occurrences(set@, v, 9) > 0);
        if !seen[k] {
            proof {
                lemma_occurrences_none(set@, v, 9);
                assert(digits().contains(v));
                assert(!set@.to_set().contains(v));
            }
            return false;
        }
        k += 1;
    }
    proof {
        assert forall|v: i32| digits().contains(v) implies set@.to_set().contains(v) by {
            lemma_occurrences_none(set@, v, 9);
            assert(occurrences(set@, v, 9) > 0);
            let j = choose|j: int| 0 <= j < 9 && set@[j] == v;
            assert(set@.contains(set@[j]));
        }
        assert forall|v: i32| set@.to_set().contains(v) implies digits().contains(v) by {
            let j = choose|j: int| 0 <= j < set@.len() && set@[j] == v;
            assert(1 <= set@[j] <= 9);
        }
        assert(set@.to_set() =~= digits());
    }
    true
}

/// A row, a column or a block of the board.
#[derive(Clone, Copy, Debug, PartialEq, Eq, Structural)]
pub enum UnitId {
    /// The row with this index, 0 to 8.
    Row(usize),
    /// The column with this index, 0 to 8.
    Col(usize),
    /// The block at this block row and block column, each 0 to 2.
    Block(usize, usize),
}

/// Whether the unit lies on the board.
pub open spec fn unit_on_board(u: UnitId) -> bool {
    match u {
        UnitId::Row(i) => i < 9,
        UnitId::Col(i) => i < 9,
        UnitId::Block(rb, cb) => rb < 3 && cb < 3,
    }
}

/// The nine cells of the unit.
pub open spec fn unit_of(b: Board, u: UnitId) -> Seq<i32> {
    match u {
        UnitId::Row(i) => row_of(b, i as int),
        UnitId::Col(i) => col_of(b, i as int),
        UnitId::Block(rb, cb) => box_of(b, rb as int, cb as int),
    }
}

/// The place of a unit in the order in which the units are examined: row 0,
/// column 0, row 1, column 1, and so on to column 8; then the blocks, the
/// three of the top block row first, each block row from left to right.
pub open spec fn examined_at(u: UnitId) -> int {
    match u {
        UnitId::Row(i) => 2 * i,
        UnitId::Col(i) => 2 * i + 1,
        UnitId::Block(rb, cb) => 18 + 3 * rb + cb,
    }
}

/// The unit is not valid, and every unit examined before it is.
pub open spec fn is_first_invalid(b: Board, u: UnitId) -> bool {
    &&& unit_on_board(u)
    &&& !unit_valid(unit_of(b, u))
    &&& forall|w: UnitId|
        unit_on_board(w) && examined_at(w) < examined_at(u) ==> unit_valid(
            #[trigger] unit_of(b, w),
        )
}

/// The first unit, in the order of examination, that is not valid; none
/// when the board is valid.
pub fn find_invalid_unit(board: &Board) -> (found: Option<UnitId>)
    requires
        in_range(*board),
    ensures
        found is None <==> board_valid(*board),
        found matches Some(u) ==> is_first_invalid(*board, u),
{
    let mut i: usize = 0;
    while i < 9
        invariant
            i <= 9,
            in_range(*board),
            forall|k: int| 0 <= k < i ==> unit_valid(#[trigger] row_of(*board, k)),
            forall|k: int| 0 <= k < i ==> unit_valid(#[trigger] col_of(*board, k)),
        decreases 9 - i,
    {
        let row = get_row(board, i);
        assert(unit_in_range(row@)) by {
            assert forall|j: int| 0 <= j < 9 implies 0 <= #[trigger] row@[j] <= 9 by {
                assert(row@[j] == cell(*board, i as int, j));
            }
        }
        if !is_valid_set(row) {
            return Some(UnitId::Row(i));
        }
        let col = get_col(board, i);
        assert(unit_in_range(col@)) by {
            assert forall|j: int| 0 <= j < 9 implies 0 <= #[trigger] col@[j] <= 9 by {
                assert(col@[j] == cell(*board, j, i as int));
            }
        }
        if !is_valid_set(col) {
            return Some(UnitId::Col(i));
        }
        i += 1;
    }
    let mut rb: usize = 0;
    while rb < 3
        invariant
            rb <= 3,
            in_range(*board),
            forall|k: int| 0 <= k < 9 ==> unit_valid(#[trigger] row_of(*board, k)),
            forall|k: int| 0 <= k < 9 ==> unit_valid(#[trigger] col_of(*board, k)),
            forall|x: int, y: int|
                0 <= x < rb && 0 <= y < 3 ==> unit_valid(#[trigger] box_of(*board, x, y)),
        decreases 3 - rb,
    {
        let mut cb: usize = 0;
        while cb < 3
            invariant
                rb < 3,
                cb <= 3,
                in_range(*board),
                forall|k: int| 0 <= k < 9 ==> unit_valid(#[trigger] row_of(*board, k)),
                forall|k: int| 0 <= k < 9 ==> unit_valid(#[trigger] col_of(*board, k)),
                forall|x: int, y: int|
                    0 <= x < rb && 0 <= y < 3 ==> unit_valid(#[trigger] box_of(*board, x, y)),
                forall|y: int| 0 <= y < cb ==> unit_valid(#[trigger] box_of(*board, rb as int, y)),
            decreases 3 - cb,
        {
            let bx = get_box(board, rb, cb);
            assert(unit_in_range(bx@)) by {
                assert forall|j: int| 0 <= j < 9 implies 0 <= #[trigger] bx@[j] <= 9 by {
                    assert(bx@[j] == cell(*board, rb * 3 + j / 3, cb * 3 + j % 3));
                }
            }
            if !is_valid_set(bx) {
                return Some(UnitId::Block(rb, cb));
            }
            cb += 1;
        }
        rb += 1;
    }
    None
}

/// Whether no row, column or block holds a digit twice. Empty cells are
/// ignored, so a board that is still being filled can be valid.
pub fn is_valid(board: &Board) -> (ok: bool)
    requires
        in_range(*board),
    ensures
        ok == board_valid(*board),
{
    find_invalid_unit(board).is_none()
}

/// Whether every row, column and block holds each digit exactly once, so
/// that the board is filled and correct.
pub fn done(board: &Board) -> (ok: bool)
    ensures
        ok == board_complete(*board),
{
    let mut i: usize = 0;
    while i < 9
        invariant
            i <= 9,
            forall|k: int| 0 <= k < i ==> unit_complete(#[trigger] row_of(*board, k)),
            forall|k: int| 0 <= k < i ==> unit_complete(#[trigger] col_of(*board, k)),
        decreases 9 - i,
    {
        if !is_complete_set(get_row(board, i)) {
            return false;
        }
        if !is_complete_set(get_col(board, i)) {
            return false;
        }
        i += 1;
    }
    let mut rb: usize = 0;
    while rb < 3
        invariant
            rb <= 3,
            forall|k: int| 0 <= k < 9 ==> unit_complete(#[trigger] row_of(*board, k)),
            forall|k: int| 0 <= k < 9 ==> unit_complete(#[trigger] col_of(*board, k)),
            forall|x: int, y: int|
                0 <= x < rb && 0 <= y < 3 ==> unit_complete(#[trigger] box_of(*board, x, y)),
        decreases 3 - rb,
    {
        let mut cb: usize = 0;
        while cb < 3
            invariant
                rb < 3,
                cb <= 3,
                forall|k: int| 0 <= k < 9 ==> unit_complete(#[trigger] row_of(*board, k)),
                forall|k: int| 0 <= k < 9 ==> unit_complete(#[trigger] col_of(*board, k)),
                forall|x: int, y: int|
                    0 <= x < rb && 0 <= y < 3 ==> unit_complete(#[trigger] box_of(*board, x, y)),
                forall|y: int|
                    0 <= y < cb ==> unit_complete(#[trigger] box_of(*board, rb as int, y)),
            decreases 3 - cb,
        {
            if !is_complete_set(get_box(board, rb, cb)) {
                return false;
            }
            cb += 1;
        }
        rb += 1;
    }
    true
}

/// There are nine digits.
pub proof fn lemma_digits_len()
    ensures
        digits().finite(),
        digits().len() == 9,
{
    broadcast use vstd::set::group_set_axioms;

    let d = set![1i32, 2i32, 3i32, 4i32, 5i32, 6i32, 7i32, 8i32, 9i32];
    assert(digits() =~= d);
}

/// A complete unit of nine cells holds digits only, and none of them twice.
pub proof fn lemma_complete_unit_distinct(s: Seq<i32>)
    requires
        s.len() == 9,
        unit_complete(s),
    ensures
        s.no_duplicates(),
        forall|i: int| 0 <= i < 9 ==> 1 <= #[trigger] s[i] <= 9,
        unit_valid(s),
{
    lemma_digits_len();
    s.lemma_no_dup_set_cardinality();
    assert forall|i: int| 0 <= i < 9 implies 1 <= #[trigger] s[i] <= 9 by {
        assert(s.contains(s[i]));
        assert(s.to_set().contains(s[i]));
    }
}

/// Nine cells that hold digits, no digit twice, hold every digit.
pub proof fn lemma_distinct_unit_complete(s: Seq<i32>)
    requires
        s.len() == 9,
        unit_valid(s),
        forall|i: int| 0 <= i < 9 ==> 1 <= #[trigger] s[i] <= 9,
    ensures
        unit_complete(s),
{
    lemma_digits_len();
    assert(s.no_duplicates());
    s.unique_seq_to_set();
    vstd::seq_lib::seq_to_set_is_finite(s);
    assert(s.to_set().subset_of(digits())) by {
        assert forall|v: i32| s.to_set().contains(v) implies digits().contains(v) by {
            let j = choose|j: int| 0 <= j < s.len() && s[j] == v;
            assert(1 <= s[j] <= 9);
        }
    }
    vstd::set_lib::lemma_subset_equality(s.to_set(), digits());
}

/// A complete board is in range, has no empty cell, and is valid.
pub proof fn lemma_complete_board(b: Board)
    requires
        board_complete(b),
    ensures
        board_valid(b),
        in_range(b),
        forall|r: int, c: int| on_board(r, c) ==> 1 <= #[trigger] cell(b, r, c) <= 9,
{
    assert forall|i: int| 0 <= i < 9 implies unit_valid(#[trigger] row_of(b, i)) by {
        lemma_complete_unit_distinct(row_of(b, i));
    }
    assert forall|i: int| 0 <= i < 9 implies unit_valid(#[trigger] col_of(b, i)) by {
        lemma_complete_unit_distinct(col_of(b, i));
    }
    assert forall|rb: int, cb: int| 0 <= rb < 3 && 0 <= cb < 3 implies unit_valid(
        #[trigger] box_of(b, rb, cb),
    ) by {
        lemma_complete_unit_distinct(box_of(b, rb, cb));
    }
    assert forall|r: int, c: int| on_board(r, c) implies 1 <= #[trigger] cell(b, r, c) <= 9 by {
        lemma_complete_unit_distinct(row_of(b, r));
        assert(row_of(b, r)[c] == cell(b, r, c));
    }
}

/// A valid board in range without an empty cell is complete.
pub proof fn lemma_full_valid_board(b: Board)
    requires
        board_valid(b),
        forall|r: int, c: int| on_board(r, c) ==> 1 <= #[trigger] cell(b, r, c) <= 9,
    ensures
        board_complete(b),
{
    assert forall|i: int| 0 <= i < 9 implies unit_complete(#[trigger] row_of(b, i)) by {
        let s = row_of(b, i);
        assert forall|j: int| 0 <= j < 9 implies 1 <= #[trigger] s[j] <= 9 by {
            assert(s[j] == cell(b, i, j));
        }
        lemma_distinct_unit_complete(s);
    }
    assert forall|i: int| 0 <= i < 9 implies unit_complete(#[trigger] col_of(b, i)) by {
        let s = col_of(b, i);
        assert forall|j: int| 0 <= j < 9 implies 1 <= #[trigger] s[j] <= 9 by {
            assert(s[j] == cell(b, j, i));
        }
        lemma_distinct_unit_complete(s);
    }
    assert forall|rb: int, cb: int| 0 <= rb < 3 && 0 <= cb < 3 implies unit_complete(
        #[trigger] box_of(b, rb, cb),
    ) by {
        let s = box_of(b, rb, cb);
        assert forall|j: int| 0 <= j < 9 implies 1 <= #[trigger] s[j] <= 9 by {
            assert(s[j] == cell(b, rb * 3 + j / 3, cb * 3 + j % 3));
        }
        lemma_distinct_unit_complete(s);
    }
}

} // verus!

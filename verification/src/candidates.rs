//! The candidates of a cell: the digits that its row, its column and its
//! block do not hold yet.

use std::collections::HashSet;
use vstd::prelude::*;
use crate::grid::{Board, box_of, col_of, get_box, get_col, get_row, row_of};
use crate::validity::{digits, lemma_digits_len};

verus! {

/// The digits left for the cell at `(r, c)`: all nine, less those in row `r`,
/// less those in column `c`, less those in the block that holds the cell.
pub open spec fn candidates(b: Board, r: int, c: int) -> Set<i32> {
    digits().difference(row_of(b, r).to_set()).difference(col_of(b, c).to_set()).difference(
        box_of(b, r / 3, c / 3).to_set(),
    )
}

/// Each entry is smaller than the next.
pub open spec fn ascending(s: Seq<i32>) -> bool {
    forall|i: int, j: int| 0 <= i < j < s.len() ==> s[i] < s[j]
}

/// A value is a candidate exactly when it is a digit that occurs in none of
/// the three units of the cell. There are at most nine candidates.
pub proof fn lemma_candidates(b: Board, r: int, c: int)
    ensures
        forall|v: i32|
            #[trigger] candidates(b, r, c).contains(v) <==> {
                &&& 1 <= v <= 9
                &&& !row_of(b, r).contains(v)
                &&& !col_of(b, c).contains(v)
                &&& !box_of(b, r / 3, c / 3).contains(v)
            },
        candidates(b, r, c).finite(),
        candidates(b, r, c).len() <= 9,
{
    lemma_digits_len();
    let s = candidates(b, r, c);
    assert(s.subset_of(digits()));
    vstd::set_lib::lemma_set_subset_finite(digits(), s);
    vstd::set_lib::lemma_len_subset(s, digits());
}

/// The set of the nine digits.
pub fn get_one_2_nine() -> (all: HashSet<i32>)
    ensures
        all@ == digits(),
{
    broadcast use vstd::std_specs::hash::group_hash_axioms;

    let mut all: HashSet<i32> = HashSet::new();
    let mut v: i32 = 1;
    while v <= 9
        invariant
            1 <= v <= 10,
            all@ =~= Set::new(|x: i32| 1 <= x < v),
        decreases 10 - v,
    {
        all.insert(v);
        v += 1;
    }
    assert(all@ =~= digits());
    all
}

/// Takes the nine values of a unit out of the set.
pub fn remove_unit(opts: &mut HashSet<i32>, unit: &[i32; 9])
    ensures
        final(opts)@ == old(opts)@.difference(unit@.to_set()),
{
    broadcast use vstd::std_specs::hash::group_hash_axioms;

    let mut i: usize = 0;
    while i < 9
        invariant
            i <= 9,
            opts@ =~= old(opts)@.difference(unit@.take(i as int).to_set()),
        decreases 9 - i,
    {
        let v = unit[i];
        opts.remove(&v);
        proof {
            let before = unit@.take(i as int);
            let after = unit@.take(i + 1);
            assert(after =~= before.push(v));
            assert forall|x: i32| after.to_set().contains(x) <==> (before.to_set().contains(x) || x
                == v) by {
                if before.contains(x) {
                    let k = choose|k: int| 0 <= k < before.len() && before[k] == x;
                    assert(after[k] == x);
                }
                if x == v {
                    assert(after[i as int] == x);
                }
                if after.contains(x) {
                    let k = choose|k: int| 0 <= k < after.len() && after[k] == x;
                    if k < i {
                        assert(before[k] == x);
                    }
                }
            }
        }
        i += 1;
    }
    assert(unit@.take(9) =~= unit@);
}

/// The candidates of the cell at `(r, c)`. The board is left as it is.
pub fn get_opts(board: &Board, r: usize, c: usize) -> (opts: HashSet<i32>)
    requires
        r < 9,
        c < 9,
    ensures
        opts@ == candidates(*board, r as int, c as int),
        forall|v: i32|
            opts@.contains(v) ==> {
                &&& 1 <= v <= 9
                &&& !row_of(*board, r as int).contains(v)
                &&& !col_of(*board, c as int).contains(v)
                &&& !box_of(*board, r as int / 3, c as int / 3).contains(v)
            },
{
    let mut opts = get_one_2_nine();
    let row = get_row(board, r);
    remove_unit(&mut opts, &row);
    let col = get_col(board, c);
    remove_unit(&mut opts, &col);
    let bx = get_box(board, r / 3, c / 3);
    remove_unit(&mut opts, &bx);
    proof {
        lemma_candidates(*board, r as int, c as int);
    }
    opts
}

/// The candidates of the cell at `(r, c)` as a list, smallest first.
pub fn candidate_list(board: &Board, r: usize, c: usize) -> (list: Vec<i32>)
    requires
        r < 9,
        c < 9,
    ensures
        ascending(list@),
        list@.to_set() == candidates(*board, r as int, c as int),
        list@.len() == candidates(*board, r as int, c as int).len(),
{
    broadcast use vstd::std_specs::hash::group_hash_axioms;

    let opts = get_opts(board, r, c);
    let mut list: Vec<i32> = Vec::new();
    let mut v: i32 = 1;
    while v <= 9
        invariant
            1 <= v <= 10,
            ascending(list@),
            forall|k: int| 0 <= k < list@.len() ==> 1 <= #[trigger] list@[k] < v,
            forall|k: int| 0 <= k < list@.len() ==> opts@.contains(#[trigger] list@[k]),
            forall|x: i32| 1 <= x < v && opts@.contains(x) ==> list@.contains(x),
        decreases 10 - v,
    {
        if opts.contains(&v) {
            let ghost prev = list@;
            list.push(v);
            proof {
                assert forall|x: i32| 1 <= x < v + 1 && opts@.contains(x) implies list@.contains(
                    x,
                ) by {
                    if x == v {
                        assert(list@[prev.len() as int] == x);
                    } else {
                        let k = choose|k: int| 0 <= k < prev.len() && prev[k] == x;
                        assert(list@[k] == x);
                    }
                }
            }
        }
        v += 1;
    }
    proof {
        lemma_candidates(*board, r as int, c as int);
        assert(list@.to_set() =~= opts@) by {
            assert forall|x: i32| list@.to_set().contains(x) implies opts@.contains(x) by {
                let k = choose|k: int| 0 <= k < list@.len() && list@[k] == x;
                assert(opts@.contains(list@[k]));
            }
        }
        assert(list@.no_duplicates());
        list@.unique_seq_to_set();
    }
    list
}

} // verus!

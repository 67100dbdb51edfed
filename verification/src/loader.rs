//! Reading a board from text.
//!
//! The text holds one row of the board per line. A line counts as a row, a
//! data line, when it begins with an ASCII digit; every other line is passed
//! over. A data line holds nine fields with commas between them. A field is
//! an integer, written as the digits of its decimal form with an optional
//! sign in front, that fits in 32 bits. A negative field stands for an empty
//! cell, as 0 does. A line ends with a line feed, or with a carriage return
//! and a line feed; the last line may end with the text.

use vstd::prelude::*;
use vstd::slice::slice_subrange;
use vstd::string::StringSliceAdditionalSpecFns;
use crate::grid::{Board, cell, get_empty_board, in_range, on_board};
use crate::validity::{board_valid, find_invalid_unit, is_first_invalid, UnitId};

verus! {

/// The line feed.
pub const LINE_FEED: u8 = 10;

/// The carriage return.
pub const CARRIAGE_RETURN: u8 = 13;

/// The comma that parts the fields of a data line.
pub const COMMA: u8 = 44;

/// The plus sign.
pub const PLUS: u8 = 43;

/// The minus sign.
pub const MINUS: u8 = 45;

/// Whether the byte is an ASCII digit.
pub open spec fn is_digit(b: u8) -> bool {
    48 <= b <= 57
}

/// The place of the first `sep` in `s` at or after `from`; the length of `s`
/// when there is none.
pub open spec fn find_from(s: Seq<u8>, sep: u8, from: int) -> int
    decreases s.len() - from,
{
    if from >= s.len() {
        s.len() as int
    } else if s[from] == sep {
        from
    } else {
        find_from(s, sep, from + 1)
    }
}

/// `find_from` gives a place at or after `from` with no `sep` between the
/// two, and `sep` stands there unless it is the end.
pub proof fn lemma_find_from(s: Seq<u8>, sep: u8, from: int)
    requires
        0 <= from <= s.len(),
    ensures
        from <= find_from(s, sep, from) <= s.len(),
        forall|i: int| from <= i < find_from(s, sep, from) ==> s[i] != sep,
        find_from(s, sep, from) < s.len() ==> s[find_from(s, sep, from)] == sep,
    decreases s.len() - from,
{
    if from < s.len() && s[from] != sep {
        lemma_find_from(s, sep, from + 1);
    }
}

/// The parts of `s` from `from` on that `sep` divides it into. There is
/// always one part at least, and a part may be empty.
pub open spec fn pieces_from(s: Seq<u8>, sep: u8, from: int) -> Seq<Seq<u8>>
    decreases s.len() - from,
{
    let e = find_from(s, sep, from);
    if 0 <= from <= e < s.len() {
        seq![s.subrange(from, e)] + pieces_from(s, sep, e + 1)
    } else {
        seq![s.subrange(from, s.len() as int)]
    }
}

/// The parts that `sep` divides `s` into.
pub open spec fn split(s: Seq<u8>, sep: u8) -> Seq<Seq<u8>> {
    pieces_from(s, sep, 0)
}

/// The number that a run of digits writes in base ten.
pub open spec fn digits_value(s: Seq<u8>) -> int
    decreases s.len(),
{
    if s.len() == 0 {
        0
    } else {
        digits_value(s.drop_last()) * 10 + (s.last() - 48)
    }
}

/// Every byte is a digit.
pub open spec fn all_digits(s: Seq<u8>) -> bool {
    forall|i: int| 0 <= i < s.len() ==> is_digit(#[trigger] s[i])
}

/// Whether the field begins with a sign.
pub open spec fn has_sign(f: Seq<u8>) -> bool {
    f.len() > 0 && (f[0] == MINUS || f[0] == PLUS)
}

/// The digits of the field: the field without its sign.
pub open spec fn field_digits(f: Seq<u8>) -> Seq<u8> {
    if has_sign(f) {
        f.skip(1)
    } else {
        f
    }
}

/// The integer that the field writes; none when the field is not an
/// optional sign and then one digit or more, or when the integer does not
/// fit in 32 bits.
pub open spec fn field_value(f: Seq<u8>) -> Option<int> {
    let body = field_digits(f);
    if body.len() == 0 || !all_digits(body) {
        None
    } else {
        let v = if f[0] == MINUS {
            -digits_value(body)
        } else {
            digits_value(body)
        };
        if i32::MIN <= v <= i32::MAX {
            Some(v)
        } else {
            None
        }
    }
}

/// The place of the first `sep` in `s` at or after `from`; the length of `s`
/// when there is none.
pub fn find_byte(s: &[u8], sep: u8, from: usize) -> (at: usize)
    requires
        from <= s@.len(),
    ensures
        at == find_from(s@, sep, from as int),
        from <= at <= s@.len(),
{
    let mut i: usize = from;
    while i < s.len() && s[i] != sep
        invariant
            from <= i <= s@.len(),
            find_from(s@, sep, from as int) == find_from(s@, sep, i as int),
        decreases s@.len() - i,
    {
        i += 1;
    }
    i
}

/// A run of digits with one more digit behind it writes ten times the
/// number, and the digit.
pub proof fn lemma_digits_value_push(s: Seq<u8>, n: int)
    requires
        0 <= n < s.len(),
    ensures
        digits_value(s.take(n + 1)) == digits_value(s.take(n)) * 10 + (s[n] - 48),
{
    assert(s.take(n + 1).drop_last() =~= s.take(n));
}

/// Reads a field as a 32-bit integer.
pub fn parse_field(f: &[u8]) -> (value: Option<i32>)
    ensures
        match value {
            Some(v) => field_value(f@) == Some(v as int),
            None => field_value(f@) is None,
        },
{
    let n = f.len();
    let mut start: usize = 0;
    let mut negative = false;
    if n > 0 && (f[0] == MINUS || f[0] == PLUS) {
        negative = f[0] == MINUS;
        start = 1;
    }
    let ghost body = field_digits(f@);
    assert(body =~= f@.skip(start as int));
    if start == n {
        return None;
    }
    // The number written so far; anything above the bound stands for
    // a number that is too large.
    let bound: i64 = 2147483649;
    let mut acc: i64 = 0;
    let mut i: usize = start;
    while i < n
        invariant
            start <= i <= n,
            n == f@.len(),
            body == f@.skip(start as int),
            body == field_digits(f@),
            bound == 2147483649,
            forall|j: int| 0 <= j < i - start ==> is_digit(#[trigger] body[j]),
            0 <= acc <= bound,
            acc == if digits_value(body.take(i - start)) < bound {
                digits_value(body.take(i - start))
            } else {
                bound as int
            },
            digits_value(body.take(i - start)) >= 0,
        decreases n - i,
    {
        let d = f[i];
        assert(body[i - start] == d);
        if d < 48 || d > 57 {
            assert(!all_digits(body)) by {
                assert(!is_digit(body[i - start]));
            }
            return None;
        }
        proof {
            lemma_digits_value_push(body, i - start);
        }
        let next = acc * 10 + (d - 48) as i64;
        acc = if next > bound {
            bound
        } else {
            next
        };
        i += 1;
    }
    assert(body.take(n - start) =~= body);
    assert(all_digits(body));
    if negative {
        assert(f@[0] == MINUS);
        if acc > 2147483648 {
            None
        } else {
            Some((-acc) as i32)
        }
    } else {
        assert(f@[0] != MINUS);
        if acc > 2147483647 {
            None
        } else {
            Some(acc as i32)
        }
    }
}

/// What is wrong with a data line.
#[derive(Clone, Copy, Debug, PartialEq, Eq, Structural)]
pub enum RowError {
    /// The field at this place, counted from 0, is not an integer.
    NotANumber { field: usize },
    /// The field at this place, counted from 0, is an integer above 9.
    OutOfRange { field: usize },
    /// The line has fewer than nine fields: this many.
    TooFewFields { found: usize },
    /// The line has more than nine fields.
    TooManyFields,
}

/// Why a text does not give a board.
#[derive(Clone, Copy, Debug, PartialEq, Eq, Structural)]
pub enum LoadError {
    /// The data line at this place, counted from 0, is not a row.
    Row { row: usize, error: RowError },
    /// The text has fewer than nine data lines: this many.
    TooFewRows { found: usize },
    /// The text has more than nine data lines.
    TooManyRows,
    /// The text gives a board, and the board holds a digit twice in this
    /// unit, the first such unit in the order of examination.
    Invalid { unit: UnitId },
}

/// The field cannot fill a cell: it is not an integer, or it is above 9.
pub open spec fn field_is_bad(f: Seq<u8>) -> bool {
    match field_value(f) {
        Some(v) => v > 9,
        None => true,
    }
}

/// The cell that a field fills: the field's integer, or 0 for a negative
/// one.
pub open spec fn field_cell(f: Seq<u8>) -> i32 {
    match field_value(f) {
        Some(v) => if 0 <= v <= 9 {
            v as i32
        } else {
            0
        },
        None => 0,
    }
}

/// Reading the line stops at field `k`: it is a tenth field, or it cannot
/// fill a cell.
pub open spec fn field_stops(fields: Seq<Seq<u8>>, k: int) -> bool {
    0 <= k < fields.len() && (k == 9 || field_is_bad(fields[k]))
}

/// Field `k` is the first at which reading the line stops.
pub open spec fn first_field_stop(fields: Seq<Seq<u8>>, k: int) -> bool {
    field_stops(fields, k) && forall|j: int| 0 <= j < k ==> !field_stops(fields, j)
}

/// What is wrong with a data line, if anything. The fields are read in
/// order, and the first that stops the reading decides: a field that is not
/// an integer, a tenth field, a field above 9. When none does, the line is
/// wrong if it has fewer than nine fields.
pub open spec fn row_error(line: Seq<u8>) -> Option<RowError> {
    let fields = split(line, COMMA);
    if exists|k: int| first_field_stop(fields, k) {
        let k = choose|k: int| first_field_stop(fields, k);
        if field_value(fields[k]) is None {
            Some(RowError::NotANumber { field: k as usize })
        } else if k == 9 {
            Some(RowError::TooManyFields)
        } else {
            Some(RowError::OutOfRange { field: k as usize })
        }
    } else if fields.len() < 9 {
        Some(RowError::TooFewFields { found: fields.len() as usize })
    } else {
        None
    }
}

/// The cells that the fields of a data line fill.
pub open spec fn row_cells(line: Seq<u8>) -> Seq<i32> {
    split(line, COMMA).map_values(|f: Seq<u8>| field_cell(f))
}

/// At most one field is the first at which reading stops.
pub proof fn lemma_first_field_stop(fields: Seq<Seq<u8>>, k: int, m: int)
    requires
        first_field_stop(fields, k),
        first_field_stop(fields, m),
    ensures
        k == m,
{
}

/// Reads a data line: nine fields with commas between them, each an integer
/// that is 9 at most. A negative field gives an empty cell.
pub fn parse_row(line: &[u8]) -> (row: Result<[i32; 9], RowError>)
    ensures
        match row {
            Ok(cells) => row_error(line@) is None && cells@ == row_cells(line@),
            Err(e) => row_error(line@) == Some(e),
        },
{
    let ghost fields = split(line@, COMMA);
    let mut cells: [i32; 9] = [0i32; 9];
    let mut k: usize = 0;
    let mut pos: usize = 0;
    let mut ended = false;
    let ghost mut read: Seq<Seq<u8>> = Seq::empty();
    while !ended
        invariant
            k <= 9,
            pos <= line@.len(),
            fields == split(line@, COMMA),
            read.len() == k,
            !ended ==> fields == read + pieces_from(line@, COMMA, pos as int),
            ended ==> fields == read,
            forall|j: int| 0 <= j < k ==> !field_is_bad(#[trigger] read[j]),
            forall|j: int| 0 <= j < k ==> cells[j] == field_cell(#[trigger] read[j]),
        decreases line@.len() - pos + if ended { 0int } else { 1int },
    {
        let e = find_byte(line, COMMA, pos);
        let field = slice_subrange(line, pos, e);
        proof {
            lemma_find_from(line@, COMMA, pos as int);
            let rest = pieces_from(line@, COMMA, pos as int);
            assert(rest[0] == field@);
            assert(fields[k as int] == field@);
            assert forall|j: int| 0 <= j < k implies !field_stops(fields, j) by {
                assert(fields[j] == read[j]);
            }
        }
        match parse_field(field) {
            None => {
                proof {
                    assert(first_field_stop(fields, k as int));
                    let m = choose|m: int| first_field_stop(fields, m);
                    lemma_first_field_stop(fields, k as int, m);
                }
                return Err(RowError::NotANumber { field: k });
            },
            Some(v) => {
                if k >= 9 {
                    proof {
                        assert(first_field_stop(fields, k as int));
                        let m = choose|m: int| first_field_stop(fields, m);
                        lemma_first_field_stop(fields, k as int, m);
                    }
                    return Err(RowError::TooManyFields);
                }
                if v > 9 {
                    proof {
                        assert(first_field_stop(fields, k as int));
                        let m = choose|m: int| first_field_stop(fields, m);
                        lemma_first_field_stop(fields, k as int, m);
                    }
                    return Err(RowError::OutOfRange { field: k });
                }
                cells[k] = if v < 0 {
                    0
                } else {
                    v
                };
            },
        }
        proof {
            let before = read;
            read = read.push(field@);
            if e < line@.len() {
                assert(fields =~= read + pieces_from(line@, COMMA, e + 1));
            } else {
                assert(fields =~= read);
            }
            assert forall|j: int| 0 <= j < k + 1 implies !field_is_bad(#[trigger] read[j]) by {
                if j < k {
                    assert(read[j] == before[j]);
                }
            }
            assert forall|j: int| 0 <= j < k + 1 implies cells[j] == field_cell(
                #[trigger] read[j],
            ) by {
                if j < k {
                    assert(read[j] == before[j]);
                }
            }
        }
        k += 1;
        if e >= line.len() {
            ended = true;
        } else {
            pos = e + 1;
        }
    }
    proof {
        assert forall|m: int| !first_field_stop(fields, m) by {
            if field_stops(fields, m) {
                assert(!field_is_bad(read[m]));
            }
        }
    }
    if k < 9 {
        return Err(RowError::TooFewFields { found: k });
    }
    assert(cells@ =~= row_cells(line@));
    Ok(cells)
}

/// The line without the carriage return at its end, if it has one.
pub open spec fn strip_return(line: Seq<u8>) -> Seq<u8> {
    if line.len() > 0 && line.last() == CARRIAGE_RETURN {
        line.drop_last()
    } else {
        line
    }
}

/// The lines of the text from `from` on, where `from` is the start of a
/// line. A line runs up to the next line feed; a carriage return just before
/// that line feed is not part of the line. What stands behind the last line
/// feed is a line too, unless it is empty.
pub open spec fn lines_from(t: Seq<u8>, from: int) -> Seq<Seq<u8>>
    decreases t.len() - from,
{
    let e = find_from(t, LINE_FEED, from);
    if 0 <= from <= e < t.len() {
        seq![strip_return(t.subrange(from, e))] + lines_from(t, e + 1)
    } else if 0 <= from < t.len() {
        seq![t.subrange(from, t.len() as int)]
    } else {
        Seq::empty()
    }
}

/// Whether the line is a row of the board: it begins with a digit.
pub open spec fn is_data_line(line: Seq<u8>) -> bool {
    line.len() > 0 && is_digit(line[0])
}

/// The data lines among the given lines, in their order.
pub open spec fn keep_data_lines(lines: Seq<Seq<u8>>) -> Seq<Seq<u8>> {
    lines.filter(|line: Seq<u8>| is_data_line(line))
}

/// The data lines of the text.
pub open spec fn data_lines(t: Seq<u8>) -> Seq<Seq<u8>> {
    keep_data_lines(lines_from(t, 0))
}

/// Reading the text stops at data line `k`: it is a tenth data line, or it
/// is not a row.
pub open spec fn row_stops(rows: Seq<Seq<u8>>, k: int) -> bool {
    0 <= k < rows.len() && (k == 9 || row_error(rows[k]) is Some)
}

/// Data line `k` is the first at which reading the text stops.
pub open spec fn first_row_stop(rows: Seq<Seq<u8>>, k: int) -> bool {
    row_stops(rows, k) && forall|j: int| 0 <= j < k ==> !row_stops(rows, j)
}

/// Why the text gives no board, if it gives none. The data lines are read in
/// order, and the first that stops the reading decides: a line that is not a
/// row, or a tenth data line. When none does, the text is wrong if it has
/// fewer than nine data lines.
pub open spec fn text_error(t: Seq<u8>) -> Option<LoadError> {
    let rows = data_lines(t);
    if exists|k: int| first_row_stop(rows, k) {
        let k = choose|k: int| first_row_stop(rows, k);
        if k == 9 {
            Some(LoadError::TooManyRows)
        } else {
            Some(LoadError::Row { row: k as usize, error: row_error(rows[k]).unwrap() })
        }
    } else if rows.len() < 9 {
        Some(LoadError::TooFewRows { found: rows.len() as usize })
    } else {
        None
    }
}

/// The board holds, row by row, the cells that the first nine data lines of
/// the text fill.
pub open spec fn holds_text(b: Board, t: Seq<u8>) -> bool {
    forall|r: int, c: int|
        on_board(r, c) ==> #[trigger] cell(b, r, c) == row_cells(data_lines(t)[r])[c]
}

/// At most one data line is the first at which reading stops.
pub proof fn lemma_first_row_stop(rows: Seq<Seq<u8>>, k: int, m: int)
    requires
        first_row_stop(rows, k),
        first_row_stop(rows, m),
    ensures
        k == m,
{
}

/// The data lines of two runs of lines, one after the other, are the data
/// lines of the first and then those of the second.
pub proof fn lemma_keep_data_lines_add(a: Seq<Seq<u8>>, b: Seq<Seq<u8>>)
    ensures
        keep_data_lines(a + b) == keep_data_lines(a) + keep_data_lines(b),
{
    Seq::filter_distributes_over_add(a, b, |line: Seq<u8>| is_data_line(line));
}

/// Of a single line, the data lines are the line itself or none.
pub proof fn lemma_keep_data_lines_one(line: Seq<u8>)
    ensures
        keep_data_lines(seq![line]) == if is_data_line(line) {
            seq![line]
        } else {
            Seq::<Seq<u8>>::empty()
        },
{
    let pred = |l: Seq<u8>| is_data_line(l);
    let one = seq![line];
    reveal(Seq::filter);
    assert(one.drop_last() =~= Seq::<Seq<u8>>::empty());
    assert(one.drop_last().filter(pred) =~= Seq::<Seq<u8>>::empty());
    assert(one.last() == line);
    if is_data_line(line) {
        assert(one.filter(pred) =~= seq![line]);
    } else {
        assert(one.filter(pred) =~= Seq::<Seq<u8>>::empty());
    }
}

/// Reads a board from the bytes of a text: nine data lines, each a row. The
/// board is not examined for validity.
pub fn parse_bytes(t: &[u8]) -> (loaded: Result<Board, LoadError>)
    ensures
        match loaded {
            Ok(b) => text_error(t@) is None && holds_text(b, t@) && in_range(b),
            Err(e) => text_error(t@) == Some(e),
        },
{
    let ghost rows = data_lines(t@);
    let mut board = get_empty_board();
    let mut count: usize = 0;
    let mut pos: usize = 0;
    let ghost mut read: Seq<Seq<u8>> = Seq::empty();
    while pos < t.len()
        invariant
            count <= 9,
            pos <= t@.len(),
            rows == data_lines(t@),
            read.len() == count,
            rows == read + keep_data_lines(lines_from(t@, pos as int)),
            forall|j: int| 0 <= j < count ==> row_error(#[trigger] read[j]) is None,
            forall|j: int, c: int|
                0 <= j < count && 0 <= c < 9 ==> #[trigger] cell(board, j, c) == row_cells(
                    read[j],
                )[c],
            in_range(board),
        decreases t@.len() - pos,
    {
        let e = find_byte(t, LINE_FEED, pos);
        let mut stop = e;
        if e < t.len() && stop > pos && t[stop - 1] == CARRIAGE_RETURN {
            stop = stop - 1;
        }
        let line = slice_subrange(t, pos, stop);
        let next = if e < t.len() {
            e + 1
        } else {
            e
        };
        proof {
            lemma_find_from(t@, LINE_FEED, pos as int);
            let rest = lines_from(t@, next as int);
            if e < t@.len() {
                assert(strip_return(t@.subrange(pos as int, e as int)) =~= line@);
                assert(lines_from(t@, pos as int) == seq![line@] + rest);
            } else {
                assert(rest =~= Seq::<Seq<u8>>::empty());
                assert(lines_from(t@, pos as int) =~= seq![line@] + rest);
            }
            lemma_keep_data_lines_add(seq![line@], rest);
            lemma_keep_data_lines_one(line@);
        }
        if stop > pos && t[pos] >= 48 && t[pos] <= 57 {
            proof {
                assert(line@[0] == t@[pos as int]);
                assert(is_data_line(line@));
                assert(rows =~= read.push(line@) + keep_data_lines(lines_from(t@, next as int)));
                assert(rows[count as int] == line@);
                assert forall|j: int| 0 <= j < count implies !row_stops(rows, j) by {
                    assert(rows[j] == read[j]);
                }
            }
            if count >= 9 {
                proof {
                    assert(first_row_stop(rows, count as int));
                    let m = choose|m: int| first_row_stop(rows, m);
                    lemma_first_row_stop(rows, count as int, m);
                }
                return Err(LoadError::TooManyRows);
            }
            match parse_row(line) {
                Err(error) => {
                    proof {
                        assert(first_row_stop(rows, count as int));
                        let m = choose|m: int| first_row_stop(rows, m);
                        lemma_first_row_stop(rows, count as int, m);
                    }
                    return Err(LoadError::Row { row: count, error });
                },
                Ok(cells) => {
                    let ghost before = board;
                    let ghost old_read = read;
                    board[count] = cells;
                    proof {
                        read = read.push(line@);
                        assert forall|j: int| 0 <= j < count + 1 implies row_error(
                            #[trigger] read[j],
                        ) is None by {
                            if j < count {
                                assert(read[j] == old_read[j]);
                            }
                        }
                        assert forall|j: int, c: int| 0 <= j < count + 1 && 0 <= c < 9 implies #[trigger] cell(
                            board,
                            j,
                            c,
                        ) == row_cells(read[j])[c] by {
                            if j < count {
                                assert(read[j] == old_read[j]);
                                assert(cell(board, j, c) == cell(before, j, c));
                            } else {
                                assert(cell(board, j, c) == cells@[c]);
                            }
                        }
                        assert forall|r: int, c: int| on_board(r, c) implies 0 <= #[trigger] cell(
                            board,
                            r,
                            c,
                        ) <= 9 by {
                            if r == count {
                                assert(cell(board, r, c) == cells@[c]);
                                assert(cells@[c] == field_cell(split(line@, COMMA)[c]));
                            } else {
                                assert(cell(board, r, c) == cell(before, r, c));
                            }
                        }
                    }
                    count += 1;
                },
            }
        } else {
            proof {
                assert(!is_data_line(line@)) by {
                    if stop > pos {
                        assert(line@[0] == t@[pos as int]);
                    }
                }
                assert(rows =~= read + keep_data_lines(lines_from(t@, next as int)));
            }
        }
        pos = next;
    }
    proof {
        assert(lines_from(t@, pos as int) =~= Seq::<Seq<u8>>::empty());
        lemma_keep_data_lines_add(Seq::<Seq<u8>>::empty(), Seq::<Seq<u8>>::empty());
        assert(keep_data_lines(Seq::<Seq<u8>>::empty()).len() == 0) by {
            assert(Seq::<Seq<u8>>::empty() + Seq::<Seq<u8>>::empty() =~= Seq::<Seq<u8>>::empty());
        }
        assert(rows =~= read);
        assert forall|m: int| !first_row_stop(rows, m) by {
            if row_stops(rows, m) {
                assert(row_error(read[m]) is None);
            }
        }
    }
    if count < 9 {
        return Err(LoadError::TooFewRows { found: count });
    }
    Ok(board)
}

/// Reads a board from a text: nine data lines, each a row. The board is not
/// examined for validity.
pub fn parse_board(text: &str) -> (loaded: Result<Board, LoadError>)
    ensures
        match loaded {
            Ok(b) => text_error(text.spec_bytes()) is None && holds_text(b, text.spec_bytes())
                && in_range(b),
            Err(e) => text_error(text.spec_bytes()) == Some(e),
        },
{
    parse_bytes(text.as_bytes())
}

/// Reads a board from a text and examines it: the result is a board only if
/// the text gives one and that board is valid, so that no board with a
/// digit twice in a unit is ever handed on.
pub fn read_board(text: &str) -> (loaded: Result<Board, LoadError>)
    ensures
        match loaded {
            Ok(b) => {
                &&& text_error(text.spec_bytes()) is None
                &&& holds_text(b, text.spec_bytes())
                &&& in_range(b)
                &&& board_valid(b)
            },
            Err(LoadError::Invalid { unit }) => {
                &&& text_error(text.spec_bytes()) is None
                &&& exists|b: Board| holds_text(b, text.spec_bytes()) && is_first_invalid(b, unit)
            },
            Err(e) => text_error(text.spec_bytes()) == Some(e),
        },
{
    match parse_board(text) {
        Err(e) => {
            proof {
                lemma_text_error_kind(text.spec_bytes());
            }
            Err(e)
        },
        Ok(board) => match find_invalid_unit(&board) {
            Some(unit) => Err(LoadError::Invalid { unit }),
            None => Ok(board),
        },
    }
}

/// The text itself is never at fault for a digit that stands twice in a
/// unit.
pub proof fn lemma_text_error_kind(t: Seq<u8>)
    ensures
        !(text_error(t) matches Some(LoadError::Invalid { .. })),
{
}

} // verus!

use sudoku::grid::Board;
use sudoku::loader::{
    find_byte, parse_board, parse_bytes, parse_field, parse_row, read_board, LoadError, RowError,
};
use sudoku::validity::UnitId;

const TEXT: &str = "\
# a puzzle
5,3,0,0,7,0,0,0,0
6,0,0,1,9,5,0,0,0
0,9,8,0,0,0,0,6,0

8,0,0,0,6,0,0,0,3
4,0,0,8,0,3,0,0,1
7,0,0,0,2,0,0,0,6
; another comment
0,6,0,0,0,0,2,8,0
0,0,0,4,1,9,0,0,5
0,0,0,0,8,0,0,7,9
";

fn puzzle() -> Board {
    [
        [5, 3, 0, 0, 7, 0, 0, 0, 0],
        [6, 0, 0, 1, 9, 5, 0, 0, 0],
        [0, 9, 8, 0, 0, 0, 0, 6, 0],
        [8, 0, 0, 0, 6, 0, 0, 0, 3],
        [4, 0, 0, 8, 0, 3, 0, 0, 1],
        [7, 0, 0, 0, 2, 0, 0, 0, 6],
        [0, 6, 0, 0, 0, 0, 2, 8, 0],
        [0, 0, 0, 4, 1, 9, 0, 0, 5],
        [0, 0, 0, 0, 8, 0, 0, 7, 9],
    ]
}

fn nine_rows_with(first: &str) -> String {
    let mut text = String::from(first);
    text.push('\n');
    for _ in 0..8 {
        text.push_str("0,0,0,0,0,0,0,0,0\n");
    }
    text
}

#[test]
fn find_byte_gives_the_first_place_or_the_length() {
    assert_eq!(find_byte(b"a,b,c", b',', 0), 1);
    assert_eq!(find_byte(b"a,b,c", b',', 1), 1);
    assert_eq!(find_byte(b"a,b,c", b',', 2), 3);
    assert_eq!(find_byte(b"a,b,c", b',', 4), 5);
    assert_eq!(find_byte(b"a,b,c", b',', 5), 5);
    assert_eq!(find_byte(b"", b',', 0), 0);
}

#[test]
fn a_field_is_an_integer_with_an_optional_sign() {
    assert_eq!(parse_field(b"0"), Some(0));
    assert_eq!(parse_field(b"7"), Some(7));
    assert_eq!(parse_field(b"+5"), Some(5));
    assert_eq!(parse_field(b"-5"), Some(-5));
    assert_eq!(parse_field(b"-0"), Some(0));
    assert_eq!(parse_field(b"007"), Some(7));
    assert_eq!(parse_field(b"12"), Some(12));
    assert_eq!(parse_field(b"1234567890"), Some(1234567890));
}

#[test]
fn a_field_must_fit_in_32_bits() {
    assert_eq!(parse_field(b"2147483647"), Some(2147483647));
    assert_eq!(parse_field(b"2147483648"), None);
    assert_eq!(parse_field(b"-2147483648"), Some(-2147483648));
    assert_eq!(parse_field(b"-2147483649"), None);
    assert_eq!(parse_field(b"99999999999999999999999999"), None);
    assert_eq!(parse_field(b"-99999999999999999999999999"), None);
    assert_eq!(parse_field(b"00000000000000000000000009"), Some(9));
}

#[test]
fn a_field_that_is_not_an_integer_is_refused() {
    assert_eq!(parse_field(b""), None);
    assert_eq!(parse_field(b"-"), None);
    assert_eq!(parse_field(b"+"), None);
    assert_eq!(parse_field(b"+-1"), None);
    assert_eq!(parse_field(b"--1"), None);
    assert_eq!(parse_field(b" 1"), None);
    assert_eq!(parse_field(b"1 "), None);
    assert_eq!(parse_field(b"1a"), None);
    assert_eq!(parse_field(b"x"), None);
    assert_eq!(parse_field(b"1.0"), None);
    assert_eq!(parse_field(b"9\r"), None);
}

#[test]
fn every_field_agrees_with_the_standard_reading_of_an_integer() {
    let fields = [
        "0", "9", "10", "-1", "+3", "-0", "+0", "", "+", "-", "a", "1a", "٣", "2147483647",
        "2147483648", "-2147483648", "-2147483649", "0000", "1,2", " 7", "7 ", "+-7", "4294967296",
    ];
    for field in fields {
        assert_eq!(parse_field(field.as_bytes()), field.parse::<i32>().ok(), "{field:?}");
    }
}

#[test]
fn a_row_has_nine_fields() {
    assert_eq!(parse_row(b"5,3,0,0,7,0,0,0,0"), Ok([5, 3, 0, 0, 7, 0, 0, 0, 0]));
    assert_eq!(parse_row(b"1,2,3,4,5,6,7,8,9"), Ok([1, 2, 3, 4, 5, 6, 7, 8, 9]));
    assert_eq!(parse_row(b"+1,02,3,4,5,6,7,8,009"), Ok([1, 2, 3, 4, 5, 6, 7, 8, 9]));
}

#[test]
fn a_negative_field_gives_an_empty_cell() {
    assert_eq!(parse_row(b"-1,3,-7,0,7,-2147483648,0,0,-0"), Ok([0, 3, 0, 0, 7, 0, 0, 0, 0]));
}

#[test]
fn a_row_with_fewer_than_nine_fields_is_refused() {
    assert_eq!(parse_row(b"1,2,3,4,5,6,7,8"), Err(RowError::TooFewFields { found: 8 }));
    assert_eq!(parse_row(b"1"), Err(RowError::TooFewFields { found: 1 }));
}

#[test]
fn a_row_with_more_than_nine_fields_is_refused() {
    assert_eq!(parse_row(b"1,2,3,4,5,6,7,8,9,1"), Err(RowError::TooManyFields));
    assert_eq!(parse_row(b"1,2,3,4,5,6,7,8,9,1,x"), Err(RowError::TooManyFields));
    assert_eq!(parse_row(b"1,2,3,4,5,6,7,8,9,10"), Err(RowError::TooManyFields));
}

#[test]
fn a_field_that_is_not_a_number_is_reported_with_its_place() {
    assert_eq!(parse_row(b"1,2,x,4,5,6,7,8,9"), Err(RowError::NotANumber { field: 2 }));
    assert_eq!(parse_row(b"1, 2,3,4,5,6,7,8,9"), Err(RowError::NotANumber { field: 1 }));
    assert_eq!(parse_row(b"1,,3,4,5,6,7,8,9"), Err(RowError::NotANumber { field: 1 }));
    assert_eq!(parse_row(b""), Err(RowError::NotANumber { field: 0 }));
    assert_eq!(parse_row(b"1,2,3,4,5,6,7,8,9,"), Err(RowError::NotANumber { field: 9 }));
    assert_eq!(parse_row(b"1,2,3,4,5,6,7,8,"), Err(RowError::NotANumber { field: 8 }));
    assert_eq!(parse_row(b"1,2,3,4,5,6,7,8,2147483648"), Err(RowError::NotANumber { field: 8 }));
}

#[test]
fn a_field_above_nine_is_reported_with_its_place() {
    assert_eq!(parse_row(b"1,2,3,10,5,6,7,8,9"), Err(RowError::OutOfRange { field: 3 }));
    assert_eq!(parse_row(b"2147483647,2,3,4,5,6,7,8,9"), Err(RowError::OutOfRange { field: 0 }));
}

#[test]
fn the_first_fault_of_a_row_is_the_one_reported() {
    assert_eq!(parse_row(b"1,12,x,4"), Err(RowError::OutOfRange { field: 1 }));
    assert_eq!(parse_row(b"1,x,12,4"), Err(RowError::NotANumber { field: 1 }));
    assert_eq!(parse_row(b"1,2,3,4,5,6,7,8,9,1,x"), Err(RowError::TooManyFields));
    assert_eq!(parse_row(b"1,2,3,4,5,6,7,8,x,1"), Err(RowError::NotANumber { field: 8 }));
}

#[test]
fn a_text_with_nine_rows_gives_a_board() {
    assert_eq!(parse_board(TEXT), Ok(puzzle()));
    assert_eq!(read_board(TEXT), Ok(puzzle()));
}

#[test]
fn the_bytes_of_a_text_give_the_same_board() {
    assert_eq!(parse_bytes(TEXT.as_bytes()), Ok(puzzle()));
    assert_eq!(parse_bytes(b""), Err(LoadError::TooFewRows { found: 0 }));
    assert_eq!(
        parse_bytes(b"1,2,3,4,5,6,7,8,9\n9,\xff"),
        Err(LoadError::Row { row: 1, error: RowError::NotANumber { field: 1 } })
    );
}

#[test]
fn lines_that_do_not_begin_with_a_digit_are_passed_over() {
    let text = TEXT.replace("; another comment", "-1,2,3,4,5,6,7,8,9\n 1,2,3\n+1,2\nx");
    assert_eq!(read_board(&text), Ok(puzzle()));
}

#[test]
fn the_last_line_may_end_with_the_text() {
    let text = TEXT.trim_end();
    assert!(!text.ends_with('\n'));
    assert_eq!(read_board(text), Ok(puzzle()));
}

#[test]
fn lines_may_end_with_a_carriage_return_and_a_line_feed() {
    let text = TEXT.replace('\n', "\r\n");
    assert_eq!(read_board(&text), Ok(puzzle()));
}

#[test]
fn a_carriage_return_without_a_line_feed_is_part_of_the_line() {
    let mut text = String::from(TEXT.trim_end());
    text.push('\r');
    assert_eq!(
        read_board(&text),
        Err(LoadError::Row { row: 8, error: RowError::NotANumber { field: 8 } })
    );
}

#[test]
fn negative_values_in_a_text_give_empty_cells() {
    let text = TEXT.replace("5,3,0,0,7,0,0,0,0", "5,3,-1,-2,7,-30,0,-0,-9");
    assert_eq!(read_board(&text), Ok(puzzle()));
}

#[test]
fn a_text_with_fewer_than_nine_rows_is_refused() {
    assert_eq!(read_board(""), Err(LoadError::TooFewRows { found: 0 }));
    assert_eq!(read_board("# nothing\n\n"), Err(LoadError::TooFewRows { found: 0 }));
    let text = TEXT.replace("0,0,0,0,8,0,0,7,9\n", "");
    assert_eq!(read_board(&text), Err(LoadError::TooFewRows { found: 8 }));
    assert_eq!(parse_board(&text), Err(LoadError::TooFewRows { found: 8 }));
}

#[test]
fn a_text_with_more_than_nine_rows_is_refused() {
    let mut text = String::from(TEXT);
    text.push_str("0,0,0,0,0,0,0,0,0\n");
    assert_eq!(read_board(&text), Err(LoadError::TooManyRows));
    text.push_str("x\n0,0\n");
    assert_eq!(read_board(&text), Err(LoadError::TooManyRows));
}

#[test]
fn a_faulty_row_is_reported_with_its_place_among_the_data_lines() {
    let text = TEXT.replace("8,0,0,0,6,0,0,0,3", "8,0,0,0,6,0,0,0");
    assert_eq!(
        read_board(&text),
        Err(LoadError::Row { row: 3, error: RowError::TooFewFields { found: 8 } })
    );
    let text = TEXT.replace("0,6,0,0,0,0,2,8,0", "0,6,0,0,0,0,2,8,0,0");
    assert_eq!(read_board(&text), Err(LoadError::Row { row: 6, error: RowError::TooManyFields }));
    let text = TEXT.replace("5,3,0,0,7,0,0,0,0", "5,3,0,0,7,0,0,0,zero");
    assert_eq!(
        read_board(&text),
        Err(LoadError::Row { row: 0, error: RowError::NotANumber { field: 8 } })
    );
    let text = TEXT.replace("0,0,0,0,8,0,0,7,9", "0,0,0,0,8,0,0,7,19");
    assert_eq!(
        parse_board(&text),
        Err(LoadError::Row { row: 8, error: RowError::OutOfRange { field: 8 } })
    );
}

#[test]
fn the_first_faulty_row_is_the_one_reported() {
    let text = nine_rows_with("1,2,3").replace("0,0,0,0,0,0,0,0,0\n", "0,x\n");
    assert_eq!(
        read_board(&text),
        Err(LoadError::Row { row: 0, error: RowError::TooFewFields { found: 3 } })
    );
    let mut text = nine_rows_with("0,0,0,0,0,0,0,0,0");
    text.push_str("0,0,0,0,0,0,0,0,0\n");
    let text = text.replacen("0,0,0,0,0,0,0,0,0\n", "0,0,0,0,0,0,0,0,0,0\n", 1);
    assert_eq!(read_board(&text), Err(LoadError::Row { row: 0, error: RowError::TooManyFields }));
}

#[test]
fn a_row_with_a_digit_twice_is_refused_before_any_solving() {
    let text = nine_rows_with("1,0,0,0,1,0,0,0,0");
    assert_eq!(read_board(&text), Err(LoadError::Invalid { unit: UnitId::Row(0) }));
    // Without the examination the same text gives the board as written.
    let mut expected: Board = [[0; 9]; 9];
    expected[0][0] = 1;
    expected[0][4] = 1;
    assert_eq!(parse_board(&text), Ok(expected));
}

#[test]
fn a_column_or_a_block_with_a_digit_twice_is_refused() {
    let text = nine_rows_with("0,0,0,0,0,0,0,0,0").replacen("0,0,0,0,0,0,0,0,0", "0,0,7,0,0,0,0,0,0", 1);
    let text = text.replacen("\n0,0,0,0,0,0,0,0,0\n", "\n0,0,7,0,0,0,0,0,0\n", 1);
    assert_eq!(read_board(&text), Err(LoadError::Invalid { unit: UnitId::Col(2) }));
    let text = nine_rows_with("4,0,0,0,0,0,0,0,0").replacen("\n0,0,0,0,0,0,0,0,0\n", "\n0,4,0,0,0,0,0,0,0\n", 1);
    assert_eq!(read_board(&text), Err(LoadError::Invalid { unit: UnitId::Block(0, 0) }));
}

#[test]
fn a_fault_of_the_text_comes_before_a_fault_of_the_board() {
    let text = nine_rows_with("1,1,0,0,0,0,0,0,0").replace("0,0,0,0,0,0,0,0,0\n", "0,0,0,0,0,0,0,0\n");
    assert_eq!(
        read_board(&text),
        Err(LoadError::Row { row: 1, error: RowError::TooFewFields { found: 8 } })
    );
}

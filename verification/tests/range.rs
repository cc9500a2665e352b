use marginalia::derive_range;

const MID_FILE_ROW_WHERE_NO_CLAMPING_CAN_OCCUR: usize = 10;
const THREE_LINE_SELECTION: &str = "let x = 1;\nlet y = 2;\nlet z = 3;";
const NEAR_TOP_ROW_WHOSE_UNCLAMPED_START_FALLS_BELOW_ONE: usize = 2;
const FOUR_LINE_SELECTION: &str = "fn f() {\n    g();\n    h();\n}";

#[test]
fn derive_range_spans_selection_and_clamps_at_first_row() {
    let (start_row, end_row) = derive_range(
        MID_FILE_ROW_WHERE_NO_CLAMPING_CAN_OCCUR,
        THREE_LINE_SELECTION,
    );
    assert_eq!(
        end_row + 1 - start_row,
        3,
        "spanning: a 3 line selection must span 3 rows, got {start_row}..={end_row}"
    );
    assert!(
        (start_row..=end_row).contains(&MID_FILE_ROW_WHERE_NO_CLAMPING_CAN_OCCUR),
        "spanning: the range must contain the cursor row {MID_FILE_ROW_WHERE_NO_CLAMPING_CAN_OCCUR}, got {start_row}..={end_row}"
    );

    let (clamped_start_row, _) = derive_range(
        NEAR_TOP_ROW_WHOSE_UNCLAMPED_START_FALLS_BELOW_ONE,
        FOUR_LINE_SELECTION,
    );
    assert_eq!(
        clamped_start_row, 1,
        "clamping: a selection reaching above the first row must start at row 1"
    );
}

#[test]
fn derive_range_reads_the_cursor_as_the_last_row() {
    assert_eq!(derive_range(10, THREE_LINE_SELECTION), (8, 10));
    assert_eq!(derive_range(2, FOUR_LINE_SELECTION), (1, 4));
    assert_eq!(derive_range(3, FOUR_LINE_SELECTION), (1, 4));
    assert_eq!(derive_range(4, FOUR_LINE_SELECTION), (1, 4));
    assert_eq!(derive_range(5, FOUR_LINE_SELECTION), (2, 5));
}

#[test]
fn derive_range_gives_an_empty_selection_the_cursor_row() {
    assert_eq!(derive_range(7, ""), (7, 7));
    assert_eq!(derive_range(0, ""), (1, 1));
}

#[test]
fn derive_range_counts_lines_as_str_lines_does() {
    // A final newline ends the last line rather than starting another.
    assert_eq!(derive_range(10, "a\nb\n"), (9, 10));
    // A selection that is only a newline is one empty line.
    assert_eq!(derive_range(10, "\n"), (10, 10));
    // Windows line endings split like Unix ones.
    assert_eq!(derive_range(10, "a\r\nb\r\nc"), (8, 10));
    // An empty line in the middle counts.
    assert_eq!(derive_range(10, "a\n\nb"), (8, 10));
}

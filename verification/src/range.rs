//! The rows a selection covers.
use vstd::prelude::*;

use crate::text::{lines_of, split_lines};

verus! {

/// How many rows `selection` spans: its line count, and one row for a
/// selection with no line at all.
pub open spec fn span(selection: Seq<char>) -> nat {
    if lines_of(selection).len() == 0 {
        1
    } else {
        lines_of(selection).len()
    }
}

/// The first row of the range: the cursor row read as the last row, clamped at
/// row 1.
pub open spec fn range_start(cursor_row: usize, selection: Seq<char>) -> nat {
    if cursor_row >= span(selection) {
        (cursor_row - span(selection) + 1) as nat
    } else {
        1
    }
}

/// The last row of the range.
pub open spec fn range_end(cursor_row: usize, selection: Seq<char>) -> nat {
    (range_start(cursor_row, selection) + span(selection) - 1) as nat
}

/// The 1-based row range a selection covers, given the 1-based cursor row Zed
/// reports.
///
/// Zed exposes no start and end row for a selection, only the cursor's row, so
/// the range is the selection's line count spanned from the cursor. The cursor
/// sits at the end of a downward selection, which is the common case, so it is
/// read as the last row; a selection dragged upward therefore reports the rows
/// above the cursor rather than below it. The start is clamped at row 1, since a
/// selection that begins on the first line would otherwise underflow. An empty
/// selection is the single row the cursor is on.
pub fn derive_range(cursor_row: usize, selection: &str) -> (r: (usize, usize))
    ensures
        r.0 == range_start(cursor_row, selection@),
        r.1 == range_end(cursor_row, selection@),
        1 <= r.0 <= r.1,
        r.1 - r.0 + 1 == span(selection@),
        1 <= cursor_row ==> r.0 <= cursor_row <= r.1,
        cursor_row >= span(selection@) ==> r.1 == cursor_row && r.0 == cursor_row - span(
            selection@,
        ) + 1,
        cursor_row < span(selection@) ==> r.0 == 1 && r.1 == span(selection@),
{
    let lines = split_lines(selection);
    let rows: usize = if lines.len() == 0 {
        1
    } else {
        lines.len()
    };
    assert(rows == span(selection@)) by {
        assert(crate::text::rows(lines@).len() == lines@.len());
    }
    let start_row: usize = if cursor_row >= rows - 1 {
        cursor_row - (rows - 1)
    } else {
        0
    };
    let start_row: usize = if start_row < 1 {
        1
    } else {
        start_row
    };
    (start_row, start_row + (rows - 1))
}

/// The cursor is read as the last row of the selection: a selection that fits
/// above the cursor ends on the cursor row and starts as many rows above it as
/// the selection has lines, less one; one that does not fit starts on row 1
/// and spans its line count. A selection spans its line count, and an empty
/// one a single row.
pub proof fn law_range_ends_on_the_cursor(cursor_row: usize, selection: Seq<char>)
    ensures
        span(selection) == if lines_of(selection).len() == 0 {
            1
        } else {
            lines_of(selection).len()
        },
        cursor_row >= span(selection) ==> range_end(cursor_row, selection) == cursor_row
            && range_start(cursor_row, selection) == cursor_row - span(selection) + 1,
        cursor_row < span(selection) ==> range_start(cursor_row, selection) == 1 && range_end(
            cursor_row,
            selection,
        ) == span(selection),
{
}

} // verus!

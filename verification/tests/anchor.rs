use marginalia::{locate, pending, Anchor, Comment};

const QUOTE: &str = "    let total = items.len();\n    total\n";

const ROW_WHEN_WRITTEN: usize = 2;

const SHIFTED_DOWN_BY_TWO: &str = "\
use std::fmt;

fn count(items: &[u8]) -> usize {
    let total = items.len();
    total
}
";

const QUOTE_REWRITTEN_AWAY: &str = "\
fn count(items: &[u8]) -> usize {
    items.len()
}
";

const REINDENTED_ONE_LEVEL_DEEPER: &str = "\
fn wrap() {
    fn count(items: &[u8]) -> usize {
        let total = items.len();
        total
    }
}
";

#[test]
fn locate_follows_shifted_quote_and_reports_drift_when_gone() {
    assert_eq!(
        locate(QUOTE, SHIFTED_DOWN_BY_TWO, ROW_WHEN_WRITTEN),
        Anchor::Anchored {
            start_row: 4,
            end_row: 5
        },
        "a quote that moved down the file must be reported at its new rows"
    );

    assert_eq!(
        locate(QUOTE, QUOTE_REWRITTEN_AWAY, ROW_WHEN_WRITTEN),
        Anchor::Drifted {
            start_row_when_written: ROW_WHEN_WRITTEN
        },
        "a quote that no longer occurs must drift, carrying the original row"
    );
}

#[test]
fn locate_anchors_a_quote_whose_indentation_changed() {
    assert_eq!(
        locate(QUOTE, REINDENTED_ONE_LEVEL_DEEPER, ROW_WHEN_WRITTEN),
        Anchor::Anchored {
            start_row: 3,
            end_row: 4
        },
        "a quote the agent only reindented must anchor at its new rows, not drift"
    );
}

fn comment(id: &str, file: &str, start_row: usize, end_row: usize, quote: &str, body: &str, created_at: u64) -> Comment {
    Comment {
        id: id.to_owned(),
        file: file.to_owned(),
        start_row,
        end_row,
        quote: quote.to_owned(),
        body: body.to_owned(),
        created_at,
    }
}

#[test]
fn pending_drifts_a_comment_whose_file_is_gone() {
    const ROW_IN_THE_DELETED_FILE: usize = 7;

    // The first comment's file reads as SHIFTED_DOWN_BY_TWO; the second's file
    // is gone, which the caller reports as no text.
    let sources = vec![
        (
            comment(
                "c1",
                "src/count.rs",
                2,
                3,
                "    let total = items.len();\n    total\n",
                "inline it",
                1000,
            ),
            Some(SHIFTED_DOWN_BY_TWO.to_owned()),
        ),
        (
            comment("c2", "src/gone.rs", 7, 7, "fn removed() {}", "drop this", 1001),
            None,
        ),
    ];

    let anchors: Vec<(String, Anchor)> = pending(sources)
        .into_iter()
        .map(|entry| (entry.comment.id, entry.anchor))
        .collect();

    assert_eq!(
        anchors,
        vec![
            (
                "c1".to_owned(),
                Anchor::Anchored {
                    start_row: 4,
                    end_row: 5
                }
            ),
            (
                "c2".to_owned(),
                Anchor::Drifted {
                    start_row_when_written: ROW_IN_THE_DELETED_FILE
                }
            ),
        ],
        "a comment must anchor against its own file, and one whose file is gone must drift"
    );
}

#[test]
fn pending_keeps_each_comment_as_written() {
    let written = comment("c9", "src/x.rs", 3, 4, "a\nb", "why", 5);
    let anchored = pending(vec![(written.clone(), Some("z\na\nb\n".to_owned()))]);
    assert_eq!(anchored.len(), 1);
    assert_eq!(anchored[0].comment, written);
    assert_eq!(anchored[0].anchor, Anchor::Anchored { start_row: 2, end_row: 3 });
}

#[test]
fn locate_prefers_the_occurrence_nearest_the_hint() {
    let text = "x\nq\ny\nq\nz\nq\n";
    assert_eq!(locate("q", text, 1), Anchor::Anchored { start_row: 2, end_row: 2 });
    assert_eq!(locate("q", text, 4), Anchor::Anchored { start_row: 4, end_row: 4 });
    assert_eq!(locate("q", text, 100), Anchor::Anchored { start_row: 6, end_row: 6 });
}

#[test]
fn locate_breaks_a_tie_towards_the_earlier_occurrence() {
    // Rows 2 and 4 are both one row from row 3.
    let text = "x\nq\ny\nq\nz\n";
    assert_eq!(locate("q", text, 3), Anchor::Anchored { start_row: 2, end_row: 2 });
}

#[test]
fn locate_drifts_a_quote_with_no_line() {
    assert_eq!(
        locate("", "anything\n", 4),
        Anchor::Drifted { start_row_when_written: 4 }
    );
}

#[test]
fn locate_drifts_a_quote_longer_than_the_file() {
    assert_eq!(
        locate("a\nb\nc", "a\nb", 1),
        Anchor::Drifted { start_row_when_written: 1 }
    );
}

#[test]
fn locate_compares_lines_trimmed_of_unicode_whitespace_and_line_endings() {
    // A no-break space and a tab are whitespace; a carriage return ends a line.
    let text = "head\r\n\u{a0}\tlet a = 1;  \r\nlet b = 2;\u{3000}\r\n";
    assert_eq!(
        locate("let a = 1;\nlet b = 2;", text, 1),
        Anchor::Anchored { start_row: 2, end_row: 3 }
    );
    // Whitespace inside a line still counts.
    assert_eq!(
        locate("let a  = 1;", text, 1),
        Anchor::Drifted { start_row_when_written: 1 }
    );
}

#[test]
fn locate_matches_a_blank_quote_line_against_a_blank_file_line() {
    assert_eq!(
        locate("a\n   \nb", "a\n\nb\n", 9),
        Anchor::Anchored { start_row: 1, end_row: 3 }
    );
}

#[test]
fn locate_moves_a_comment_by_the_lines_inserted_above_it() {
    let before = locate(QUOTE, SHIFTED_DOWN_BY_TWO, ROW_WHEN_WRITTEN);
    let inserted = ["// one\n// two\n// three\n", SHIFTED_DOWN_BY_TWO].concat();
    assert_eq!(before, Anchor::Anchored { start_row: 4, end_row: 5 });
    assert_eq!(
        locate(QUOTE, &inserted, ROW_WHEN_WRITTEN + 3),
        Anchor::Anchored { start_row: 7, end_row: 8 }
    );
}

#[test]
fn anchored_comment_clones_as_it_is() {
    let entry = pending(vec![(comment("c1", "f", 1, 1, "a", "b", 1), Some("a\n".to_owned()))]);
    assert_eq!(entry[0].clone(), entry[0]);
}

#[test]
fn locate_keeps_a_single_occurrence_on_its_code_when_lines_are_inserted_above() {
    let inserted = ["// one\n// two\n// three\n", SHIFTED_DOWN_BY_TWO].concat();
    assert_eq!(
        locate(QUOTE, &inserted, ROW_WHEN_WRITTEN),
        Anchor::Anchored { start_row: 7, end_row: 8 }
    );
}

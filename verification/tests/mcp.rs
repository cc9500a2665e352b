use marginalia::mcp::{list_pending_comments, resolve_comment, row_range, PendingComment, Position, ResolveOutcome};
use marginalia::store::closing_event;
use marginalia::{pending, Anchor, AnchoredComment, Comment, Event, Store};

fn comment(id: &str, start_row: usize, end_row: usize) -> Comment {
    Comment {
        id: id.to_owned(),
        file: "src/lib.rs".to_owned(),
        start_row,
        end_row,
        quote: "    let kept = 1;\n".to_owned(),
        body: format!("body of {id}"),
        created_at: 1000,
    }
}

#[test]
fn row_range_writes_one_row_alone() {
    assert_eq!(row_range(2, 2), "2");
    assert_eq!(row_range(2, 3), "2-3");
    assert_eq!(row_range(0, 1234567), "0-1234567");
}

const SOURCE: &str = "fn one() {\n    let kept = 1;\n    let also_kept = 2;\n}\n";

const PRESENT_QUOTE: &str = "    let kept = 1;\n    let also_kept = 2;\n";

const ABSENT_QUOTE: &str = "    let deleted = 3;\n";

fn comment_on(id: &str, quote: &str) -> Comment {
    Comment {
        id: id.to_owned(),
        file: "src/lib.rs".to_owned(),
        start_row: 2,
        end_row: 3,
        quote: quote.to_owned(),
        body: format!("body of {id}"),
        created_at: 0,
    }
}

#[test]
fn list_pending_comments_maps_anchor_state_to_field_set() {
    let anchored = pending(vec![
        (comment_on("c1", PRESENT_QUOTE), Some(SOURCE.to_owned())),
        (comment_on("c2", ABSENT_QUOTE), Some(SOURCE.to_owned())),
    ]);
    let listed = list_pending_comments(anchored);
    assert_eq!(listed.len(), 2, "expected two entries");
    assert_eq!(listed[0].id, "c1");
    assert_eq!(listed[0].position, Position::Anchored { lines: "2-3".to_owned() }, "c1");
    assert_eq!(listed[1].id, "c2");
    assert_eq!(
        listed[1].position,
        Position::Drifted { lines_when_written: "2-3".to_owned() },
        "c2"
    );
    assert_eq!(listed[1].body, "body of c2");
    assert_eq!(listed[1].quote, ABSENT_QUOTE);
}

#[test]
fn list_pending_comments_writes_a_single_row_alone() {
    let listed = list_pending_comments(vec![
        AnchoredComment { comment: comment("c1", 1, 1), anchor: Anchor::Anchored { start_row: 2, end_row: 2 } },
        AnchoredComment { comment: comment("c2", 5, 6), anchor: Anchor::Drifted { start_row_when_written: 5 } },
    ]);
    assert_eq!(listed[0].position, Position::Anchored { lines: "2".to_owned() });
    assert_eq!(listed[1].position, Position::Drifted { lines_when_written: "5-6".to_owned() });
}

#[test]
fn pending_comment_from_keeps_the_comment_text() {
    let entry = PendingComment::from(AnchoredComment {
        comment: comment("c3", 4, 8),
        anchor: Anchor::Anchored { start_row: 10, end_row: 14 },
    });
    assert_eq!(
        entry,
        PendingComment {
            id: "c3".to_owned(),
            file: "src/lib.rs".to_owned(),
            position: Position::Anchored { lines: "10-14".to_owned() },
            quote: "    let kept = 1;\n".to_owned(),
            body: "body of c3".to_owned(),
        }
    );
}

#[test]
fn resolve_comment_records_one_event_however_often_called() {
    let mut store = Store::from_events(vec![Event::Add(comment("c1", 1, 1))]);
    let first = resolve_comment(&store, "c1");
    assert!(!first.is_error());
    assert_eq!(first, ResolveOutcome::Resolve);
    let event = closing_event("c1", 77);
    assert_eq!(event, Event::Resolve { id: "c1".to_owned(), resolved_at: 77 });
    store.append(event);
    let second = resolve_comment(&store, "c1");
    assert!(!second.is_error());
    assert_eq!(second, ResolveOutcome::AlreadyResolved);
    assert!(store.fold().is_empty(), "resolved comment c1 is still pending");
    let resolves = store
        .events()
        .iter()
        .filter(|event| matches!(event, Event::Resolve { .. }))
        .count();
    assert_eq!(resolves, 1, "two resolve calls did not append exactly one Resolve event");
}

#[test]
fn resolve_comment_errors_on_unknown_id() {
    let store = Store::from_events(vec![Event::Add(comment("c1", 1, 1))]);
    let outcome = resolve_comment(&store, "c7");
    assert!(outcome.is_error());
    assert_eq!(outcome, ResolveOutcome::UnknownId);
    assert_eq!(
        outcome.message("c7"),
        "No comment has id c7, so nothing was resolved. Call list_pending_comments for the ids that are pending."
    );
}

#[test]
fn resolve_comment_messages() {
    assert_eq!(
        ResolveOutcome::AlreadyResolved.message("c1"),
        "Comment c1 was already resolved, so nothing changed."
    );
    assert_eq!(
        ResolveOutcome::Resolve.message("c1"),
        "Resolved comment c1."
    );
}

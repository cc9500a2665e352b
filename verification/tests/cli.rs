use marginalia::cli::{added_line, list_line, new_comment, resolve, typed_body};
use marginalia::{Anchor, AnchoredComment, Comment, Event, Store};

fn comment(id: &str, file: &str, start_row: usize, end_row: usize, body: &str) -> Comment {
    Comment {
        id: id.to_owned(),
        file: file.to_owned(),
        start_row,
        end_row,
        quote: "q".to_owned(),
        body: body.to_owned(),
        created_at: 1,
    }
}

#[test]
fn new_comment_takes_the_next_id_and_the_derived_rows() {
    let mut store = Store::from_events(Vec::new());
    store.append(Event::Add(comment("c1", "src/a.rs", 1, 1, "old")));
    let body = typed_body("  tidy this up \n").expect("a body was typed");
    let written = new_comment(
        &store,
        "src/lib.rs".to_owned(),
        12,
        "a\nb\nc".to_owned(),
        body,
        4242,
    );
    assert_eq!(
        written,
        Comment {
            id: "c2".to_owned(),
            file: "src/lib.rs".to_owned(),
            start_row: 10,
            end_row: 12,
            quote: "a\nb\nc".to_owned(),
            body: "tidy this up".to_owned(),
            created_at: 4242,
        }
    );
}

#[test]
fn new_comment_skips_an_id_a_comment_already_has() {
    let mut store = Store::from_events(Vec::new());
    store.append(Event::Add(comment("c2", "src/a.rs", 1, 1, "typed by hand")));
    let written = new_comment(&store, "f".to_owned(), 1, "x".to_owned(), "b".to_owned(), 1);
    assert_eq!(written.id, "c3");
}

#[test]
fn typed_body_writes_nothing_for_an_empty_body() {
    assert_eq!(typed_body(" \t\n"), None);
    assert_eq!(typed_body(""), None);
    assert_eq!(typed_body("\u{a0}ok\u{3000}"), Some("ok".to_owned()));
}

#[test]
fn added_line_names_the_comment_and_its_rows() {
    assert_eq!(added_line(&comment("c7", "src/a.rs", 3, 15, "x")), "c7 src/a.rs:3-15");
}

#[test]
fn list_line_reports_anchored_and_drifted_comments() {
    let anchored = AnchoredComment {
        comment: comment("c1", "src/a.rs", 2, 3, "inline it"),
        anchor: Anchor::Anchored { start_row: 4, end_row: 5 },
    };
    assert_eq!(list_line(&anchored), "c1 src/a.rs:4-5 anchored inline it");
    let drifted = AnchoredComment {
        comment: comment("c2", "src/gone.rs", 7, 9, "drop this"),
        anchor: Anchor::Drifted { start_row_when_written: 7 },
    };
    assert_eq!(list_line(&drifted), "c2 src/gone.rs:7 drifted drop this");
}

#[test]
fn resolve_refuses_an_id_that_is_not_pending() {
    let mut store = Store::from_events(Vec::new());
    store.append(Event::Add(comment("c1", "f", 1, 1, "a")));
    store.append(Event::Add(comment("c2", "f", 1, 1, "b")));
    store.append(Event::Resolve { id: "c1".to_owned(), resolved_at: 3 });

    assert_eq!(resolve(&store, "c1"), Err("no pending comment c1".to_owned()), "c1 is already resolved");
    assert_eq!(resolve(&store, "c5"), Err("no pending comment c5".to_owned()), "no comment has c5");
    assert_eq!(resolve(&store, "c2"), Ok(()));
}

use marginalia::store::{event_line, log_lines};
use marginalia::{Comment, CommentState, Event, Store};

/// Reads one log line the way the app does: an event when the line is a
/// JSON object of a known shape, nothing otherwise.
fn parse_event(line: &[u8]) -> Option<Event> {
    let value: serde_json::Value = serde_json::from_slice(line).ok()?;
    let text = |key: &str| value.get(key)?.as_str().map(str::to_owned);
    let number = |key: &str| value.get(key)?.as_u64();
    match value.get("type")?.as_str()? {
        "Add" => Some(Event::Add(Comment {
            id: text("id")?,
            file: text("file")?,
            start_row: number("start_row")? as usize,
            end_row: number("end_row")? as usize,
            quote: text("quote")?,
            body: text("body")?,
            created_at: number("created_at")?,
        })),
        "Resolve" => Some(Event::Resolve {
            id: text("id")?,
            resolved_at: number("resolved_at")?,
        }),
        _ => None,
    }
}

fn read_log(bytes: &[u8]) -> Store {
    Store::from_parsed(log_lines(bytes).iter().map(|line| parse_event(line)).collect())
}

#[test]
fn fold_drops_resolved_and_skips_torn_lines() {
    let log = [
        r#"{"type":"Add","id":"c1","file":"src/a.rs","start_row":10,"end_row":12,"quote":"let x = 1;","body":"rename this","created_at":1000}"#,
        "\n",
        r#"{"type":"Add","id":"c2","file":"src/b.rs","start_row":3,"end_row":3,"quote":"fn main() {}","body":"needs a doc","created_at":1001}"#,
        "\n",
        r#"{"type":"Resolve","id":"c1","resolved_at":1002}"#,
        "\n",
        r#"{"type":"Add","id":"c3","file":"src/c."#,
    ]
    .concat();

    let comments = read_log(log.as_bytes()).fold();

    assert_eq!(
        comments.iter().map(|c| c.id.as_str()).collect::<Vec<_>>(),
        vec!["c2"]
    );
}

fn comment(id: &str, body: &str, created_at: u64) -> Comment {
    Comment {
        id: id.to_owned(),
        file: "src/a.rs".to_owned(),
        start_row: 1,
        end_row: 1,
        quote: "let x = 1;".to_owned(),
        body: body.to_owned(),
        created_at,
    }
}

fn add(store: &mut Store, id: &str) {
    store.append(Event::Add(comment(id, &format!("body of {id}"), 1000)));
}

#[test]
fn state_of_separates_an_unknown_id_from_a_resolved_one() {
    let mut store = Store::from_events(Vec::new());
    add(&mut store, "c1");
    add(&mut store, "c2");
    store.append(Event::Resolve {
        id: "c1".to_owned(),
        resolved_at: 1002,
    });

    assert_eq!(
        store.state_of("c1"),
        CommentState::Resolved,
        "c1 has a Resolve event"
    );
    assert_eq!(
        store.state_of("c2"),
        CommentState::Pending,
        "c2 was added and never resolved"
    );
    assert_eq!(
        store.state_of("c3"),
        CommentState::Unknown,
        "no Add event ever used c3"
    );
}

#[test]
fn new_id_does_not_reuse_the_id_of_a_resolved_comment() {
    let mut store = Store::from_events(Vec::new());
    let first = store.new_id();
    store.append(Event::Add(Comment {
        id: first,
        file: "src/a.rs".to_owned(),
        start_row: 1,
        end_row: 1,
        quote: "let x = 1;".to_owned(),
        body: "rename this".to_owned(),
        created_at: 1000,
    }));
    store.append(Event::Resolve {
        id: "c1".to_owned(),
        resolved_at: 1001,
    });

    assert_eq!(store.new_id(), "c2");
}

#[test]
fn new_id_counts_every_add_and_no_resolve() {
    let mut store = Store::from_events(Vec::new());
    assert_eq!(store.new_id(), "c1");
    for n in 1..=11 {
        let id = store.new_id();
        assert_eq!(id, format!("c{n}"));
        add(&mut store, &id);
        store.append(Event::Resolve { id, resolved_at: 1 });
    }
    assert_eq!(store.new_id(), "c12");
}

#[test]
fn fold_appends_an_added_comment_after_the_pending_ones() {
    let mut store = Store::from_events(Vec::new());
    add(&mut store, "c1");
    add(&mut store, "c2");
    let before = store.fold();
    let added = comment("c3", "third", 7);
    store.append(Event::Add(added.clone()));
    let mut expected = before;
    expected.push(added);
    assert_eq!(store.fold(), expected);
}

#[test]
fn fold_keeps_a_comment_added_again_after_its_resolve() {
    // The pending comments are those with no later Resolve.
    let mut store = Store::from_events(Vec::new());
    add(&mut store, "c1");
    store.append(Event::Resolve { id: "c1".to_owned(), resolved_at: 2 });
    add(&mut store, "c1");
    assert_eq!(
        store.fold().iter().map(|c| c.id.as_str()).collect::<Vec<_>>(),
        vec!["c1"]
    );
    assert_eq!(store.state_of("c1"), CommentState::Pending);
}

#[test]
fn state_of_keeps_an_id_no_add_used_unknown_after_a_resolve() {
    let mut store = Store::from_events(Vec::new());
    store.append(Event::Resolve { id: "c4".to_owned(), resolved_at: 2 });
    assert_eq!(store.state_of("c4"), CommentState::Unknown);
    assert!(store.fold().is_empty());
}

#[test]
fn appended_event_line_reads_back_after_the_earlier_lines() {
    let first = br#"{"type":"Resolve","id":"c1","resolved_at":1}"#.to_vec();
    let second = br#"{"type":"Resolve","id":"c2","resolved_at":2}"#.to_vec();
    let mut log = event_line(first.clone());
    assert_eq!(log_lines(&log), vec![first.clone()]);
    log.extend(event_line(second.clone()));
    assert_eq!(log_lines(&log), vec![first, second]);
    assert_eq!(log_lines(b""), Vec::<Vec<u8>>::new());
    assert_eq!(log_lines(b"\n\n"), Vec::<Vec<u8>>::new());
    assert_eq!(log_lines(b"a\n\nb"), vec![b"a".to_vec(), b"b".to_vec()]);
}

#[test]
fn events_reads_back_what_was_appended() {
    let mut store = Store::from_events(Vec::new());
    let event = Event::Add(comment("c1", "b", 1));
    store.append(event.clone());
    assert_eq!(store.events(), &vec![event]);
}

#[test]
fn new_id_skips_ids_already_in_use() {
    let mut store = Store::from_events(Vec::new());
    add(&mut store, "c2");
    assert_eq!(store.new_id(), "c3");
    add(&mut store, "c4");
    add(&mut store, "c3");
    // Three adds, so the count starts at c4, which is taken.
    assert_eq!(store.new_id(), "c5");
    let mut store = Store::from_events(Vec::new());
    add(&mut store, "x");
    add(&mut store, "c3");
    add(&mut store, "c4");
    add(&mut store, "c6");
    assert_eq!(store.new_id(), "c5");
}

#[test]
fn new_id_is_unchanged_by_a_resolve() {
    let mut store = Store::from_events(Vec::new());
    add(&mut store, "c1");
    let before = store.new_id();
    store.append(Event::Resolve { id: "c1".to_owned(), resolved_at: 3 });
    assert_eq!(store.new_id(), before);
}

#[test]
fn an_unparsable_line_anywhere_changes_nothing() {
    let a = r#"{"type":"Add","id":"c1","file":"f","start_row":1,"end_row":1,"quote":"q","body":"b","created_at":1}"#;
    let r = r#"{"type":"Resolve","id":"c1","resolved_at":2}"#;
    let b = r#"{"type":"Add","id":"c2","file":"f","start_row":1,"end_row":1,"quote":"q","body":"b","created_at":3}"#;
    let torn = r#"{"type":"Add","id":"c9","fi"#;
    let clean = [a, "\n", r, "\n", b, "\n"].concat();
    let with_torn_middle = [a, "\n", torn, "\n", r, "\n", b, "\n"].concat();
    let with_torn_tail = [a, "\n", r, "\n", b, "\n", torn].concat();
    let expected = read_log(clean.as_bytes()).fold();
    assert_eq!(expected.iter().map(|c| c.id.as_str()).collect::<Vec<_>>(), vec!["c2"]);
    assert_eq!(read_log(with_torn_middle.as_bytes()).fold(), expected);
    assert_eq!(read_log(with_torn_tail.as_bytes()).fold(), expected);
    // A torn tail cut inside a multi-byte character is skipped the same way.
    let mut cut = clean.clone().into_bytes();
    cut.extend_from_slice(&"{\"body\":\"\u{e9}".as_bytes()[..10]);
    assert_eq!(read_log(&cut).fold(), expected);
}

#[test]
fn from_parsed_keeps_the_parsed_events_in_order() {
    let first = Event::Resolve { id: "c1".to_owned(), resolved_at: 1 };
    let second = Event::Resolve { id: "c2".to_owned(), resolved_at: 2 };
    let store = Store::from_parsed(vec![None, Some(first.clone()), None, Some(second.clone()), None]);
    assert_eq!(store.events(), &vec![first, second]);
}

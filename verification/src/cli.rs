//! What the `marginalia` command decides and prints, apart from reading the
//! environment, the terminal and the log.
use vstd::prelude::*;

use crate::anchor::{Anchor, AnchoredComment};
use crate::range::{derive_range, range_end, range_start};
use crate::store::{has_id, is_next_id, pending_of, Comment, Store};
use crate::text::{decimal, push_char, push_decimal, push_str, trim, trim_str};

verus! {

/// The body of a comment from the line typed at the prompt: the line trimmed
/// at both ends, or `None` when nothing is left, in which case nothing is
/// written.
pub fn typed_body(line: &str) -> (r: Option<String>)
    ensures
        trim(line@).len() == 0 <==> r is None,
        r matches Some(body) ==> body@ == trim(line@),
{
    let body = trim_str(line);
    if body.as_str().is_empty() {
        None
    } else {
        Some(body)
    }
}

/// The comment `marginalia add` records on a selection.
///
/// `file` is the file relative to the worktree root, `cursor_row` the 1-based
/// row Zed reports, `selection` the selected text, stored verbatim as the
/// quote, and `body` what `typed_body` kept of the typed line. The comment
/// takes the id `new_id` gives and the rows `derive_range` gives.
pub fn new_comment(
    store: &Store,
    file: String,
    cursor_row: usize,
    selection: String,
    body: String,
    created_at: u64,
) -> (r: Comment)
    ensures
        is_next_id(store@, r.id@),
        r.file == file,
        r.start_row == range_start(cursor_row, selection@),
        r.end_row == range_end(cursor_row, selection@),
        r.quote == selection,
        r.body == body,
        r.created_at == created_at,
{
    let (start_row, end_row) = derive_range(cursor_row, selection.as_str());
    Comment { id: store.new_id(), file, start_row, end_row, quote: selection, body, created_at }
}

/// The line `marginalia add` prints for a comment it wrote:
/// `<id> <file>:<start>-<end>`.
pub fn added_line(comment: &Comment) -> (r: String)
    ensures
        r@ == comment.id@ + seq![' '] + comment.file@ + seq![':'] + decimal(
            comment.start_row as nat,
        ) + seq!['-'] + decimal(comment.end_row as nat),
{
    let mut r = comment.id.clone();
    push_char(&mut r, ' ');
    push_str(&mut r, comment.file.as_str());
    push_char(&mut r, ':');
    push_decimal(&mut r, comment.start_row as u128);
    push_char(&mut r, '-');
    push_decimal(&mut r, comment.end_row as u128);
    r
}

/// The line `marginalia list` prints for a pending comment:
/// `<id> <file>:<start>-<end> anchored <body>` where its quote was found, and
/// `<id> <file>:<row written on> drifted <body>` where it was not.
pub fn list_line(pending: &AnchoredComment) -> (r: String)
    ensures
        r@ == pending.comment.id@ + seq![' '] + pending.comment.file@ + seq![':'] + match pending.anchor {
            Anchor::Anchored { start_row, end_row } => decimal(start_row as nat) + seq!['-']
                + decimal(end_row as nat) + " anchored "@,
            Anchor::Drifted { start_row_when_written } => decimal(
                start_row_when_written as nat,
            ) + " drifted "@,
        } + pending.comment.body@,
{
    let comment = &pending.comment;
    let mut r = comment.id.clone();
    push_char(&mut r, ' ');
    push_str(&mut r, comment.file.as_str());
    push_char(&mut r, ':');
    match pending.anchor {
        Anchor::Anchored { start_row, end_row } => {
            push_decimal(&mut r, start_row as u128);
            push_char(&mut r, '-');
            push_decimal(&mut r, end_row as u128);
            push_str(&mut r, " anchored ");
        },
        Anchor::Drifted { start_row_when_written } => {
            push_decimal(&mut r, start_row_when_written as u128);
            push_str(&mut r, " drifted ");
        },
    }
    push_str(&mut r, comment.body.as_str());
    r
}

/// Whether `marginalia resolve <id>` may close `id`: yes when a pending
/// comment has that id, and otherwise the refusal `no pending comment <id>`.
/// Only when it may is the clock read and a `Resolve` appended.
pub fn resolve(store: &Store, id: &str) -> (r: Result<(), String>)
    ensures
        r is Ok <==> has_id(pending_of(store@), id@),
        r matches Err(message) ==> message@ == "no pending comment "@ + id@,
{
    let pending = store.fold();
    let key = id.to_owned();
    let mut i: usize = 0;
    while i < pending.len()
        invariant
            pending@ == pending_of(store@),
            key@ == id@,
            i <= pending.len(),
            forall|k: int| 0 <= k < i ==> pending@[k].id@ != id@,
        decreases pending.len() - i,
    {
        if pending[i].id == key {
            return Ok(());
        }
        i = i + 1;
    }
    let mut message = String::new();
    push_str(&mut message, "no pending comment ");
    push_str(&mut message, id);
    Err(message)
}

} // verus!

//! What the MCP server's tools decide and report, apart from the protocol.
use vstd::prelude::*;

use crate::anchor::{Anchor, AnchoredComment};
use crate::store::{law_resolve_closes, state_in, CommentState, Event, Store};
use crate::text::{decimal, push_char, push_decimal, push_str};

verus! {

/// The text a row range is reported as: `<row>` for a single row, and
/// `<start>-<end>` otherwise.
pub open spec fn row_range_text(start_row: nat, end_row: nat) -> Seq<char> {
    if start_row == end_row {
        decimal(start_row)
    } else {
        decimal(start_row) + seq!['-'] + decimal(end_row)
    }
}

/// A row range as the listing reports it.
pub fn row_range(start_row: usize, end_row: usize) -> (r: String)
    ensures
        r@ == row_range_text(start_row as nat, end_row as nat),
{
    let mut r = String::new();
    push_decimal(&mut r, start_row as u128);
    if start_row != end_row {
        push_char(&mut r, '-');
        push_decimal(&mut r, end_row as u128);
    }
    assert(r@ =~= row_range_text(start_row as nat, end_row as nat));
    r
}

/// Where a pending comment's code sits. A drifted comment reports the rows it
/// was written against, taken from the comment rather than from the anchor,
/// which carries only their start.
#[derive(Debug, PartialEq, Eq)]
pub enum Position {
    Anchored { lines: String },
    Drifted { lines_when_written: String },
}

/// One entry of the listing the agent reads.
#[derive(Debug, PartialEq, Eq)]
pub struct PendingComment {
    pub id: String,
    pub file: String,
    pub position: Position,
    pub quote: String,
    pub body: String,
}

/// Whether `entry` is how the listing reports `pending`.
pub open spec fn reports(entry: PendingComment, pending: AnchoredComment) -> bool {
    &&& entry.id == pending.comment.id
    &&& entry.file == pending.comment.file
    &&& entry.quote == pending.comment.quote
    &&& entry.body == pending.comment.body
    &&& match pending.anchor {
        Anchor::Anchored { start_row, end_row } => entry.position matches Position::Anchored {
            lines,
        } && lines@ == row_range_text(start_row as nat, end_row as nat),
        Anchor::Drifted { .. } => entry.position matches Position::Drifted { lines_when_written }
            && lines_when_written@ == row_range_text(
            pending.comment.start_row as nat,
            pending.comment.end_row as nat,
        ),
    }
}

impl PendingComment {
    /// The listing entry of a pending comment.
    pub fn from(pending: AnchoredComment) -> (r: PendingComment)
        ensures
            reports(r, pending),
    {
        let AnchoredComment { comment, anchor } = pending;
        let position = match anchor {
            Anchor::Anchored { start_row, end_row } => Position::Anchored {
                lines: row_range(start_row, end_row),
            },
            Anchor::Drifted { .. } => Position::Drifted {
                lines_when_written: row_range(comment.start_row, comment.end_row),
            },
        };
        PendingComment {
            id: comment.id,
            file: comment.file,
            position,
            quote: comment.quote,
            body: comment.body,
        }
    }
}

/// The entries `list_pending_comments` returns, one per pending comment, in
/// order.
pub fn list_pending_comments(pending: Vec<AnchoredComment>) -> (r: Vec<PendingComment>)
    ensures
        r@.len() == pending@.len(),
        forall|i: int| 0 <= i < r@.len() ==> reports(#[trigger] r@[i], pending@[i]),
{
    let ghost given = pending@;
    let mut rest = pending;
    let mut reversed: Vec<PendingComment> = Vec::new();
    while rest.len() > 0
        invariant
            rest@.len() + reversed@.len() == given.len(),
            rest@ == given.take(rest@.len() as int),
            forall|k: int|
                0 <= k < reversed@.len() ==> reports(
                    #[trigger] reversed@[k],
                    given[given.len() - 1 - k],
                ),
        decreases rest@.len(),
    {
        let last = rest.pop().unwrap();
        assert(last == given[rest@.len() as int]);
        assert(rest@ =~= given.take(rest@.len() as int));
        reversed.push(PendingComment::from(last));
    }
    let mut r: Vec<PendingComment> = Vec::new();
    while reversed.len() > 0
        invariant
            r@.len() + reversed@.len() == given.len(),
            forall|k: int|
                0 <= k < reversed@.len() ==> reports(
                    #[trigger] reversed@[k],
                    given[given.len() - 1 - k],
                ),
            forall|k: int| 0 <= k < r@.len() ==> reports(#[trigger] r@[k], given[k]),
        decreases reversed@.len(),
    {
        let entry = reversed.pop().unwrap();
        r.push(entry);
    }
    r
}

/// What `resolve_comment` does with an id.
#[derive(Debug, PartialEq, Eq)]
pub enum ResolveOutcome {
    /// No comment ever had the id: refused, and nothing is written.
    UnknownId,
    /// The comment is already closed: success, and nothing is written, so an
    /// agent that retries cannot grow the log.
    AlreadyResolved,
    /// The comment is pending: a `Resolve` of the id, made by
    /// `closing_event` at the time of the call, is appended to close it.
    Resolve,
}

/// What `resolve_comment` does with `id`, given the log: refuse an id no
/// comment ever had, do nothing for one already closed, and close a pending
/// one. Only the last reads the clock, for the time it was closed.
pub fn resolve_comment(store: &Store, id: &str) -> (r: ResolveOutcome)
    ensures
        r == match state_in(store@, id@) {
            CommentState::Unknown => ResolveOutcome::UnknownId,
            CommentState::Resolved => ResolveOutcome::AlreadyResolved,
            CommentState::Pending => ResolveOutcome::Resolve,
        },
{
    match store.state_of(id) {
        CommentState::Unknown => ResolveOutcome::UnknownId,
        CommentState::Resolved => ResolveOutcome::AlreadyResolved,
        CommentState::Pending => ResolveOutcome::Resolve,
    }
}

impl ResolveOutcome {
    /// Whether the outcome reaches the agent as a tool-level error.
    pub fn is_error(&self) -> (r: bool)
        ensures
            r == (*self == ResolveOutcome::UnknownId),
    {
        match self {
            ResolveOutcome::UnknownId => true,
            _ => false,
        }
    }

    /// The text the agent reads about the outcome for `id`.
    pub fn message(&self, id: &str) -> (r: String)
        ensures
            r@ == match *self {
                ResolveOutcome::UnknownId => "No comment has id "@ + id@
                    + ", so nothing was resolved. Call list_pending_comments for the ids that are pending."@,
                ResolveOutcome::AlreadyResolved => "Comment "@ + id@
                    + " was already resolved, so nothing changed."@,
                ResolveOutcome::Resolve => "Resolved comment "@ + id@ + "."@,
            },
    {
        let mut r = String::new();
        match self {
            ResolveOutcome::UnknownId => {
                push_str(&mut r, "No comment has id ");
                push_str(&mut r, id);
                push_str(
                    &mut r,
                    ", so nothing was resolved. Call list_pending_comments for the ids that are pending.",
                );
            },
            ResolveOutcome::AlreadyResolved => {
                push_str(&mut r, "Comment ");
                push_str(&mut r, id);
                push_str(&mut r, " was already resolved, so nothing changed.");
            },
            ResolveOutcome::Resolve => {
                push_str(&mut r, "Resolved comment ");
                push_str(&mut r, id);
                push_str(&mut r, ".");
            },
        }
        r
    }
}

/// Resolving is idempotent: once `resolve_comment` closes a pending id and
/// its `Resolve` is appended, asking again for the same id answers
/// `AlreadyResolved`, which appends nothing and succeeds.
pub proof fn law_resolve_twice_appends_once(events: Seq<Event>, id: String, resolved_at: u64)
    requires
        state_in(events, id@) == CommentState::Pending,
    ensures
        state_in(events.push(Event::Resolve { id, resolved_at }), id@)
            == CommentState::Resolved,
{
    law_resolve_closes(events, id, resolved_at);
}

} // verus!

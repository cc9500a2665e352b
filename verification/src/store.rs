//! The comment log of one worktree, as a sequence of events, and what it says.
use vstd::prelude::*;

use crate::text::{decimal, lemma_decimal_injective, push_char, push_decimal};

verus! {

/// A review comment as it was written.
#[derive(Debug, PartialEq, Eq)]
pub struct Comment {
    pub id: String,
    pub file: String,
    pub start_row: usize,
    pub end_row: usize,
    pub quote: String,
    pub body: String,
    pub created_at: u64,
}

impl Clone for Comment {
    fn clone(&self) -> (r: Self)
        ensures
            r == *self,
    {
        Comment {
            id: self.id.clone(),
            file: self.file.clone(),
            start_row: self.start_row,
            end_row: self.end_row,
            quote: self.quote.clone(),
            body: self.body.clone(),
            created_at: self.created_at,
        }
    }
}

/// One line of the log: a comment written, or a comment closed.
#[derive(Debug, PartialEq, Eq)]
pub enum Event {
    Add(Comment),
    Resolve { id: String, resolved_at: u64 },
}

impl Clone for Event {
    fn clone(&self) -> (r: Self)
        ensures
            r == *self,
    {
        match self {
            Event::Add(c) => Event::Add(c.clone()),
            Event::Resolve { id, resolved_at } => Event::Resolve {
                id: id.clone(),
                resolved_at: *resolved_at,
            },
        }
    }
}


/// What the log says about one id: an id no `Add` ever used is `Unknown`, which
/// is what separates a mistyped id from one whose comment is already closed.
#[derive(Debug, Clone, Copy, PartialEq, Eq, Structural)]
pub enum CommentState {
    Unknown,
    Pending,
    Resolved,
}

/// `cs` without the comments whose id is `id`, the rest kept in order.
pub open spec fn without_id(cs: Seq<Comment>, id: Seq<char>) -> Seq<Comment>
    decreases cs.len(),
{
    if cs.len() == 0 {
        cs
    } else {
        let rest = without_id(cs.drop_last(), id);
        if cs.last().id@ == id {
            rest
        } else {
            rest.push(cs.last())
        }
    }
}

/// The comments of `events` with no later `Resolve` of their id, in the order
/// they were added.
pub open spec fn pending_of(events: Seq<Event>) -> Seq<Comment>
    decreases events.len(),
{
    if events.len() == 0 {
        seq![]
    } else {
        let earlier = pending_of(events.drop_last());
        match events.last() {
            Event::Add(c) => earlier.push(c),
            Event::Resolve { id, .. } => without_id(earlier, id@),
        }
    }
}

/// Where `id` stands after `events`: `Unknown` until an `Add` uses it, then
/// whichever of `Pending` (an `Add`) or `Resolved` (a `Resolve`) came last.
pub open spec fn state_in(events: Seq<Event>, id: Seq<char>) -> CommentState
    decreases events.len(),
{
    if events.len() == 0 {
        CommentState::Unknown
    } else {
        let earlier = state_in(events.drop_last(), id);
        match events.last() {
            Event::Add(c) => if c.id@ == id {
                CommentState::Pending
            } else {
                earlier
            },
            Event::Resolve { id: closed, .. } => if closed@ == id && earlier != CommentState::Unknown {
                CommentState::Resolved
            } else {
                earlier
            },
        }
    }
}

/// How many `Add` events `events` holds.
pub open spec fn add_count(events: Seq<Event>) -> nat
    decreases events.len(),
{
    if events.len() == 0 {
        0
    } else {
        add_count(events.drop_last()) + if events.last() is Add {
            1nat
        } else {
            0nat
        }
    }
}

/// The id a comment gets when it follows the `n`th `Add`: `c` and `n + 1`.
pub open spec fn numbered_id(n: nat) -> Seq<char> {
    seq!['c'] + decimal(n + 1)
}

/// Whether `id` is `numbered_id(k)` for some `k` at or above `n`.
pub open spec fn numbered_from(id: Seq<char>, n: nat) -> bool {
    exists|k: nat| k >= n && id == #[trigger] numbered_id(k)
}

/// How many `Add` events of `events` carry an id numbered from `n` on.
pub open spec fn adds_numbered_from(events: Seq<Event>, n: nat) -> nat
    decreases events.len(),
{
    if events.len() == 0 {
        0
    } else {
        adds_numbered_from(events.drop_last(), n) + if events.last() matches Event::Add(c)
            && numbered_from(c.id@, n) {
            1nat
        } else {
            0nat
        }
    }
}

/// Whether `id` is the id `new_id` gives after `events`: the first of
/// `numbered_id(add_count(events))`, `numbered_id(add_count(events) + 1)`, ...
/// that no `Add` of `events` used.
pub open spec fn is_next_id(events: Seq<Event>, id: Seq<char>) -> bool {
    &&& !ever_added(events, id)
    &&& exists|k: nat|
        #![trigger numbered_id(k)]
        {
            &&& k >= add_count(events)
            &&& id == numbered_id(k)
            &&& forall|j: nat|
                add_count(events) <= j < k ==> ever_added(events, #[trigger] numbered_id(j))
        }
}

proof fn lemma_numbered_id_injective(a: nat, b: nat)
    requires
        numbered_id(a) == numbered_id(b),
    ensures
        a == b,
{
    assert(decimal(a + 1) =~= numbered_id(a).drop_first());
    assert(decimal(b + 1) =~= numbered_id(b).drop_first());
    lemma_decimal_injective(a + 1, b + 1);
}

proof fn lemma_numbered_from_at_most_adds(events: Seq<Event>, n: nat)
    ensures
        adds_numbered_from(events, n) <= add_count(events),
    decreases events.len(),
{
    if events.len() > 0 {
        lemma_numbered_from_at_most_adds(events.drop_last(), n);
    }
}

proof fn lemma_numbered_from_shrinks(events: Seq<Event>, n: nat)
    ensures
        adds_numbered_from(events, n + 1) <= adds_numbered_from(events, n),
        ever_added(events, numbered_id(n)) ==> adds_numbered_from(events, n + 1)
            < adds_numbered_from(events, n),
    decreases events.len(),
{
    if events.len() > 0 {
        let init = events.drop_last();
        lemma_numbered_from_shrinks(init, n);
        if let Event::Add(c) = events.last() {
            if numbered_from(c.id@, n + 1) {
                let k = choose|k: nat| k >= n + 1 && c.id@ == #[trigger] numbered_id(k);
                assert(numbered_from(c.id@, n));
            }
            if c.id@ == numbered_id(n) {
                assert(numbered_from(c.id@, n));
                if numbered_from(c.id@, n + 1) {
                    let k = choose|k: nat| k >= n + 1 && c.id@ == #[trigger] numbered_id(k);
                    lemma_numbered_id_injective(k, n);
                }
            }
        }
        if ever_added(events, numbered_id(n)) && !ever_added(init, numbered_id(n)) {
            let i = choose|i: int|
                0 <= i < events.len() && (#[trigger] events[i] matches Event::Add(c) && c.id@
                    == numbered_id(n));
            if i < events.len() - 1 {
                assert(init[i] == events[i]);
            }
        }
    }
}

proof fn lemma_next_id_minimal(events: Seq<Event>, adds: nat, n: nat)
    requires
        adds == add_count(events),
        adds <= n,
        forall|j: nat| adds <= j < n ==> ever_added(events, #[trigger] numbered_id(j)),
        !ever_added(events, numbered_id(n)),
    ensures
        is_next_id(events, numbered_id(n)),
        numbered_by_new_id(events) ==> n == adds,
{
    if numbered_by_new_id(events) {
        law_new_id_is_fresh(events);
        if n > adds {
            assert(ever_added(events, numbered_id(adds)));
        }
    }
}

/// At most one id is the next id of a log.
pub proof fn law_next_id_is_unique(events: Seq<Event>, a: Seq<char>, b: Seq<char>)
    requires
        is_next_id(events, a),
        is_next_id(events, b),
    ensures
        a == b,
{
    let ka = choose|k: nat|
        #![trigger numbered_id(k)]
        {
            &&& k >= add_count(events)
            &&& a == numbered_id(k)
            &&& forall|j: nat|
                add_count(events) <= j < k ==> ever_added(events, #[trigger] numbered_id(j))
        };
    let kb = choose|k: nat|
        #![trigger numbered_id(k)]
        {
            &&& k >= add_count(events)
            &&& b == numbered_id(k)
            &&& forall|j: nat|
                add_count(events) <= j < k ==> ever_added(events, #[trigger] numbered_id(j))
        };
    if ka < kb {
        assert(ever_added(events, numbered_id(ka)));
    } else if kb < ka {
        assert(ever_added(events, numbered_id(kb)));
    }
}

/// Resolving a comment never changes the id `new_id` gives next, so closing a
/// comment cannot free its id for reuse.
pub proof fn law_resolve_keeps_next_id(
    events: Seq<Event>,
    id: String,
    resolved_at: u64,
    next: Seq<char>,
)
    ensures
        is_next_id(events.push(Event::Resolve { id, resolved_at }), next) <==> is_next_id(
            events,
            next,
        ),
{
    let longer = events.push(Event::Resolve { id, resolved_at });
    assert(longer.drop_last() =~= events);
    assert(add_count(longer) == add_count(events));
    assert forall|x: Seq<char>| ever_added(longer, x) <==> ever_added(events, x) by {
        if ever_added(longer, x) {
            let i = choose|i: int|
                0 <= i < longer.len() && (#[trigger] longer[i] matches Event::Add(c) && c.id@
                    == x);
            assert(i < events.len());
            assert(events[i] == longer[i]);
        }
        if ever_added(events, x) {
            let i = choose|i: int|
                0 <= i < events.len() && (#[trigger] events[i] matches Event::Add(c) && c.id@
                    == x);
            assert(longer[i] == events[i]);
        }
    }
}

/// The comment log of one worktree, read into memory: the events in the
/// order they were appended. Appending is the only change it knows.
pub struct Store {
    events: Vec<Event>,
}

impl View for Store {
    type V = Seq<Event>;

    closed spec fn view(&self) -> Seq<Event> {
        self.events@
    }
}

impl Store {
    /// A log holding `events`, in their order.
    pub fn from_events(events: Vec<Event>) -> (r: Store)
        ensures
            r@ == events@,
    {
        Store { events }
    }

    /// A log holding the events among `parsed`, the lines of a log each parsed
    /// or not, in order: a line that did not parse is skipped.
    pub fn from_parsed(parsed: Vec<Option<Event>>) -> (r: Store)
        ensures
            r@ == parsed_events(parsed@),
            r@.len() == parsed_before(parsed@, parsed@.len()),
            forall|i: int|
                0 <= i < parsed@.len() && (#[trigger] parsed@[i] is Some) ==> r@[parsed_before(
                    parsed@,
                    i as nat,
                ) as int] == parsed@[i]->0,
    {
        proof {
            law_every_parsed_event_is_kept(parsed@);
        }
        let mut events: Vec<Event> = Vec::new();
        let n = parsed.len();
        let mut i: usize = 0;
        while i < n
            invariant
                n == parsed@.len(),
                i <= n,
                events@ == parsed_events(parsed@.take(i as int)),
            decreases n - i,
        {
            assert(parsed@.take(i + 1).drop_last() =~= parsed@.take(i as int));
            match &parsed[i] {
                Some(event) => events.push(event.clone()),
                None => {},
            }
            i = i + 1;
        }
        assert(parsed@.take(n as int) =~= parsed@);
        Store { events }
    }

    /// The events of the log, in the order they were appended.
    pub fn events(&self) -> (r: &Vec<Event>)
        ensures
            r@ == self@,
    {
        &self.events
    }

    /// Adds `event` after every event already in the log.
    pub fn append(&mut self, event: Event)
        ensures
            final(self)@ == old(self)@.push(event),
    {
        self.events.push(event);
    }

    /// The comments with no later `Resolve`, in the order they were added.
    pub fn fold(&self) -> (r: Vec<Comment>)
        ensures
            r@ == pending_of(self@),
    {
        let mut kept: Vec<Comment> = Vec::new();
        let n = self.events.len();
        let mut i: usize = 0;
        while i < n
            invariant
                n == self.events@.len(),
                i <= n,
                kept@ == pending_of(self.events@.take(i as int)),
            decreases n - i,
        {
            assert(self.events@.take(i + 1).drop_last() =~= self.events@.take(i as int));
            match &self.events[i] {
                Event::Add(c) => {
                    kept.push(c.clone());
                },
                Event::Resolve { id, .. } => {
                    kept = without(kept, id);
                },
            }
            i = i + 1;
        }
        assert(self.events@.take(n as int) =~= self.events@);
        kept
    }

    /// Where one id stands, by the same last-event-wins rule as `fold`.
    pub fn state_of(&self, id: &str) -> (r: CommentState)
        ensures
            r == state_in(self@, id@),
    {
        let key = id.to_owned();
        let mut state = CommentState::Unknown;
        let n = self.events.len();
        let mut i: usize = 0;
        while i < n
            invariant
                n == self.events@.len(),
                i <= n,
                key@ == id@,
                state == state_in(self.events@.take(i as int), id@),
            decreases n - i,
        {
            assert(self.events@.take(i + 1).drop_last() =~= self.events@.take(i as int));
            match &self.events[i] {
                Event::Add(c) => {
                    if c.id == key {
                        state = CommentState::Pending;
                    }
                },
                Event::Resolve { id: closed, .. } => {
                    if *closed == key && state != CommentState::Unknown {
                        state = CommentState::Resolved;
                    }
                },
            }
            i = i + 1;
        }
        assert(self.events@.take(n as int) =~= self.events@);
        state
    }

    /// An id no earlier comment used, counted over every `Add` ever written so
    /// that resolving a comment cannot free its id for reuse: `c` followed by
    /// one more than the number of `Add` events, or, when a comment already
    /// has that id, by the first larger number no comment has.
    pub fn new_id(&self) -> (r: String)
        ensures
            is_next_id(self@, r@),
            !ever_added(self@, r@),
            numbered_by_new_id(self@) ==> r@ == numbered_id(add_count(self@)),
    {
        let n_events = self.events.len();
        let mut adds: usize = 0;
        let mut i: usize = 0;
        while i < n_events
            invariant
                n_events == self.events@.len(),
                i <= n_events,
                adds == add_count(self.events@.take(i as int)),
                adds <= i,
            decreases n_events - i,
        {
            assert(self.events@.take(i + 1).drop_last() =~= self.events@.take(i as int));
            if let Event::Add(_) = &self.events[i] {
                adds = adds + 1;
            }
            i = i + 1;
        }
        assert(self.events@.take(n_events as int) =~= self.events@);
        let ghost events = self@;
        proof {
            lemma_numbered_from_at_most_adds(events, adds as nat);
        }
        let mut n: u128 = adds as u128;
        loop
            invariant
                events == self.events@,
                adds == add_count(events),
                adds <= n_events,
                n_events == events.len(),
                adds <= n,
                adds_numbered_from(events, n as nat) + (n - adds) <= adds_numbered_from(
                    events,
                    adds as nat,
                ),
                adds_numbered_from(events, adds as nat) <= adds,
                forall|j: nat| adds <= j < n ==> ever_added(events, #[trigger] numbered_id(j)),
            decreases adds_numbered_from(events, n as nat),
        {
            let mut candidate = String::new();
            push_char(&mut candidate, 'c');
            push_decimal(&mut candidate, n + 1);
            assert(candidate@ =~= numbered_id(n as nat));
            if !self.has_add_with_id(&candidate) {
                proof {
                    lemma_next_id_minimal(events, adds as nat, n as nat);
                }
                return candidate;
            }
            proof {
                lemma_numbered_from_shrinks(events, n as nat);
            }
            n = n + 1;
        }
    }

    /// Whether some `Add` of the log used the id `id`.
    fn has_add_with_id(&self, id: &String) -> (r: bool)
        ensures
            r == ever_added(self@, id@),
    {
        let n = self.events.len();
        let mut i: usize = 0;
        while i < n
            invariant
                n == self.events@.len(),
                i <= n,
                forall|k: int|
                    0 <= k < i ==> !(#[trigger] self.events@[k] matches Event::Add(c) && c.id@
                        == id@),
            decreases n - i,
        {
            if let Event::Add(c) = &self.events[i] {
                if c.id == *id {
                    assert(self.events@[i as int] matches Event::Add(c) && c.id@ == id@);
                    return true;
                }
            }
            i = i + 1;
        }
        false
    }
}

/// The event that closes the comment `id` at `resolved_at`.
pub fn closing_event(id: &str, resolved_at: u64) -> (r: Event)
    ensures
        r matches Event::Resolve { id: closed, resolved_at: at } && closed@ == id@ && at
            == resolved_at,
{
    Event::Resolve { id: id.to_owned(), resolved_at }
}

/// `cs` without the comments whose id is `id`.
fn without(cs: Vec<Comment>, id: &String) -> (r: Vec<Comment>)
    ensures
        r@ == without_id(cs@, id@),
{
    let mut r: Vec<Comment> = Vec::new();
    let mut i: usize = 0;
    while i < cs.len()
        invariant
            i <= cs.len(),
            r@ == without_id(cs@.take(i as int), id@),
        decreases cs.len() - i,
    {
        assert(cs@.take(i + 1).drop_last() =~= cs@.take(i as int));
        if cs[i].id != *id {
            r.push(cs[i].clone());
        }
        i = i + 1;
    }
    assert(cs@.take(cs.len() as int) =~= cs@);
    r
}


// ---------------------------------------------------------------------------
// What the log promises across appends
// ---------------------------------------------------------------------------

/// Whether some comment of `cs` has the id `id`.
pub open spec fn has_id(cs: Seq<Comment>, id: Seq<char>) -> bool {
    exists|i: int| 0 <= i < cs.len() && #[trigger] cs[i].id@ == id
}

/// Whether some `Add` of `events` used the id `id`.
pub open spec fn ever_added(events: Seq<Event>, id: Seq<char>) -> bool {
    exists|i: int|
        0 <= i < events.len() && (#[trigger] events[i] matches Event::Add(c) && c.id@ == id)
}

proof fn lemma_without_id(cs: Seq<Comment>, id: Seq<char>, other: Seq<char>)
    ensures
        !has_id(without_id(cs, id), id),
        other != id ==> (has_id(without_id(cs, id), other) <==> has_id(cs, other)),
    decreases cs.len(),
{
    if cs.len() > 0 {
        let init = cs.drop_last();
        lemma_without_id(init, id, other);
        let rest = without_id(init, id);
        let result = without_id(cs, id);
        let keeps_last = cs.last().id@ != id;
        if keeps_last {
            assert(result == rest.push(cs.last()));
            assert(result[rest.len() as int] == cs.last());
            assert forall|i: int| 0 <= i < rest.len() implies #[trigger] result[i] == rest[i] by {}
        } else {
            assert(result == rest);
        }
        if has_id(result, id) {
            let i = choose|i: int| 0 <= i < result.len() && #[trigger] result[i].id@ == id;
            if i < rest.len() {
                assert(rest[i].id@ == id);
            }
        }
        if other != id {
            if has_id(result, other) {
                let i = choose|i: int| 0 <= i < result.len() && #[trigger] result[i].id@ == other;
                if i < rest.len() {
                    assert(rest[i].id@ == other);
                    let j = choose|j: int| 0 <= j < init.len() && #[trigger] init[j].id@ == other;
                    assert(cs[j] == init[j]);
                } else {
                    assert(cs[cs.len() - 1].id@ == other);
                }
            }
            if has_id(cs, other) {
                let i = choose|i: int| 0 <= i < cs.len() && #[trigger] cs[i].id@ == other;
                if i < cs.len() - 1 {
                    assert(init[i].id@ == other);
                    let j = choose|j: int| 0 <= j < rest.len() && #[trigger] rest[j].id@ == other;
                    assert(result[j] == rest[j]);
                } else {
                    assert(result[rest.len() as int].id@ == other);
                }
            }
        }
    }
}

/// Reading back an `Add`: the comment it carries is pending, after every
/// comment that was pending before, which all stay as they were.
pub proof fn law_fold_after_add(events: Seq<Event>, comment: Comment)
    ensures
        pending_of(events.push(Event::Add(comment))) == pending_of(events).push(comment),
{
    assert(events.push(Event::Add(comment)).drop_last() =~= events);
}

/// Reading back a `Resolve`: no pending comment has the resolved id any more,
/// and every pending comment with another id stays, in order.
pub proof fn law_fold_after_resolve(events: Seq<Event>, id: String, resolved_at: u64)
    ensures
        pending_of(events.push(Event::Resolve { id, resolved_at })) == without_id(
            pending_of(events),
            id@,
        ),
        !has_id(pending_of(events.push(Event::Resolve { id, resolved_at })), id@),
{
    assert(events.push(Event::Resolve { id, resolved_at }).drop_last() =~= events);
    lemma_without_id(pending_of(events), id@, id@);
}

/// `state_of` and `fold` follow one rule: an id is `Pending` exactly when a
/// comment with that id is among the pending comments.
pub proof fn law_pending_state_agrees_with_fold(events: Seq<Event>, id: Seq<char>)
    ensures
        (state_in(events, id) == CommentState::Pending) <==> has_id(pending_of(events), id),
    decreases events.len(),
{
    if events.len() > 0 {
        let init = events.drop_last();
        law_pending_state_agrees_with_fold(init, id);
        let earlier = pending_of(init);
        match events.last() {
            Event::Add(c) => {
                let now = earlier.push(c);
                assert(now[earlier.len() as int] == c);
                if has_id(earlier, id) {
                    let i = choose|i: int| 0 <= i < earlier.len() && #[trigger] earlier[i].id@ == id;
                    assert(now[i] == earlier[i]);
                }
                if has_id(now, id) && c.id@ != id {
                    let i = choose|i: int| 0 <= i < now.len() && #[trigger] now[i].id@ == id;
                    assert(earlier[i] == now[i]);
                }
            },
            Event::Resolve { id: closed, .. } => {
                lemma_without_id(earlier, closed@, id);
            },
        }
    }
}

/// An id is `Unknown` exactly when no `Add` ever used it, whatever was
/// resolved.
pub proof fn law_unknown_means_never_added(events: Seq<Event>, id: Seq<char>)
    ensures
        (state_in(events, id) == CommentState::Unknown) <==> !ever_added(events, id),
    decreases events.len(),
{
    if events.len() > 0 {
        let init = events.drop_last();
        law_unknown_means_never_added(init, id);
        let last = events.len() - 1;
        if ever_added(init, id) {
            let i = choose|i: int|
                0 <= i < init.len() && (#[trigger] init[i] matches Event::Add(c) && c.id@ == id);
            assert(events[i] == init[i]);
        }
        if ever_added(events, id) {
            let i = choose|i: int|
                0 <= i < events.len() && (#[trigger] events[i] matches Event::Add(c) && c.id@
                    == id);
            if i < last {
                assert(init[i] == events[i]);
            }
        }
    }
}

/// Resolving a pending comment makes its id `Resolved`, and any id that was
/// known stays known.
pub proof fn law_resolve_closes(events: Seq<Event>, id: String, resolved_at: u64)
    requires
        state_in(events, id@) != CommentState::Unknown,
    ensures
        state_in(events.push(Event::Resolve { id, resolved_at }), id@) == CommentState::Resolved,
{
    assert(events.push(Event::Resolve { id, resolved_at }).drop_last() =~= events);
}

/// Adding a comment makes its id `Pending`.
pub proof fn law_add_opens(events: Seq<Event>, comment: Comment)
    ensures
        state_in(events.push(Event::Add(comment)), comment.id@) == CommentState::Pending,
{
    assert(events.push(Event::Add(comment)).drop_last() =~= events);
}

/// Resolving never changes how many `Add` events the log counts, from which
/// `new_id` numbers, and adding moves the count on by one.
pub proof fn law_new_id_counts_adds(events: Seq<Event>, event: Event)
    ensures
        add_count(events.push(event)) == add_count(events) + if event is Add {
            1nat
        } else {
            0nat
        },
{
    assert(events.push(event).drop_last() =~= events);
}

/// Whether every `Add` of `events` carries the id `new_id` gave when it was
/// appended: the `k`th carries `numbered_id(k)`.
pub open spec fn numbered_by_new_id(events: Seq<Event>) -> bool
    decreases events.len(),
{
    if events.len() == 0 {
        true
    } else {
        &&& numbered_by_new_id(events.drop_last())
        &&& (events.last() matches Event::Add(c) ==> c.id@ == numbered_id(
            add_count(events.drop_last()),
        ))
    }
}

proof fn lemma_numbered_ids_below(events: Seq<Event>, i: int)
    requires
        numbered_by_new_id(events),
        0 <= i < events.len(),
        events[i] is Add,
    ensures
        exists|k: nat| k < add_count(events) && events[i]->Add_0.id@ == numbered_id(k),
    decreases events.len(),
{
    let init = events.drop_last();
    if i == events.len() - 1 {
        assert(events[i]->Add_0.id@ == numbered_id(add_count(init)));
    } else {
        assert(init[i] == events[i]);
        lemma_numbered_ids_below(init, i);
        let k = choose|k: nat| k < add_count(init) && init[i]->Add_0.id@ == numbered_id(k);
        assert(k < add_count(events));
    }
}

/// In a log whose every `Add` took its id from `new_id`, the id `new_id` gives
/// next was never used by any `Add`, resolved or not, so no id is reused.
pub proof fn law_new_id_is_fresh(events: Seq<Event>)
    requires
        numbered_by_new_id(events),
    ensures
        !ever_added(events, numbered_id(add_count(events))),
{
    if ever_added(events, numbered_id(add_count(events))) {
        let i = choose|i: int|
            0 <= i < events.len() && (#[trigger] events[i] matches Event::Add(c) && c.id@
                == numbered_id(add_count(events)));
        lemma_numbered_ids_below(events, i);
        let k = choose|k: nat| k < add_count(events) && events[i]->Add_0.id@ == numbered_id(k);
        assert(numbered_id(k) == numbered_id(add_count(events)));
        assert(decimal(k + 1) =~= numbered_id(k).drop_first());
        assert(decimal(add_count(events) + 1) =~= numbered_id(add_count(events)).drop_first());
        lemma_decimal_injective(k + 1, add_count(events) + 1);
    }
}

/// Appending an `Add` with the id `new_id` gives, or any `Resolve`, keeps a
/// log numbered by `new_id`.
pub proof fn law_appends_keep_numbering(events: Seq<Event>, event: Event)
    requires
        numbered_by_new_id(events),
        event matches Event::Add(c) ==> c.id@ == numbered_id(add_count(events)),
    ensures
        numbered_by_new_id(events.push(event)),
{
    assert(events.push(event).drop_last() =~= events);
}

// ---------------------------------------------------------------------------
// The log's bytes: one event per line
// ---------------------------------------------------------------------------

/// The pieces of `bytes` between newlines, as `split(|b| *b == b'\n')` gives
/// them: one more piece than there are newlines, the last empty when `bytes`
/// ends with a newline.
pub open spec fn split_newlines(bytes: Seq<u8>) -> Seq<Seq<u8>>
    decreases bytes.len(),
{
    if bytes.len() == 0 {
        seq![seq![]]
    } else {
        let earlier = split_newlines(bytes.drop_last());
        if bytes.last() == 10 {
            earlier.push(seq![])
        } else {
            earlier.update(earlier.len() - 1, earlier.last().push(bytes.last()))
        }
    }
}

/// The byte sequences held by a sequence of byte vectors.
pub open spec fn byte_rows(v: Seq<Vec<u8>>) -> Seq<Seq<u8>> {
    v.map_values(|x: Vec<u8>| x@)
}

proof fn lemma_split_nonempty(bytes: Seq<u8>)
    ensures
        split_newlines(bytes).len() >= 1,
    decreases bytes.len(),
{
    if bytes.len() > 0 {
        lemma_split_nonempty(bytes.drop_last());
    }
}

/// The pieces of `pieces` that are not empty, in order.
pub open spec fn nonempty_pieces(pieces: Seq<Seq<u8>>) -> Seq<Seq<u8>>
    decreases pieces.len(),
{
    if pieces.len() == 0 {
        seq![]
    } else {
        let earlier = nonempty_pieces(pieces.drop_last());
        if pieces.last().len() == 0 {
            earlier
        } else {
            earlier.push(pieces.last())
        }
    }
}

/// The lines of the log that hold something, each without its newline, in
/// order, the torn piece after the last newline included. An empty line holds
/// no event and is left out; a line that does not parse as an event is for
/// the reader to skip.
pub fn log_lines(bytes: &[u8]) -> (r: Vec<Vec<u8>>)
    ensures
        byte_rows(r@) == nonempty_pieces(split_newlines(bytes@)),
{
    let mut done: Vec<Vec<u8>> = Vec::new();
    let mut cur: Vec<u8> = Vec::new();
    let ghost mut pieces: Seq<Seq<u8>> = seq![];
    let n = bytes.len();
    let mut i: usize = 0;
    while i < n
        invariant
            n == bytes@.len(),
            i <= n,
            pieces.push(cur@) == split_newlines(bytes@.take(i as int)),
            byte_rows(done@) == nonempty_pieces(pieces),
        decreases n - i,
    {
        let ghost prefix = bytes@.take(i as int);
        assert(bytes@.take(i + 1).drop_last() =~= prefix);
        proof {
            lemma_split_nonempty(prefix);
        }
        if bytes[i] == 10 {
            let ghost closed = cur@;
            assert(pieces.push(closed).drop_last() =~= pieces);
            if cur.len() > 0 {
                let line = cur;
                done.push(line);
                assert(byte_rows(done@) =~= nonempty_pieces(pieces).push(closed));
            }
            cur = Vec::new();
            proof {
                pieces = pieces.push(closed);
            }
            assert(pieces.push(cur@) =~= split_newlines(prefix).push(seq![]));
        } else {
            let ghost before = split_newlines(prefix);
            cur.push(bytes[i]);
            assert(pieces.push(cur@) =~= before.update(
                before.len() - 1,
                before.last().push(bytes@[i as int]),
            ));
        }
        i = i + 1;
    }
    assert(bytes@.take(n as int) =~= bytes@);
    let ghost all = pieces.push(cur@);
    assert(all.drop_last() =~= pieces);
    if cur.len() > 0 {
        done.push(cur);
    }
    assert(byte_rows(done@) =~= nonempty_pieces(split_newlines(bytes@)));
    done
}

/// The line the log stores for an event whose serialised form is `json`.
pub fn event_line(json: Vec<u8>) -> (r: Vec<u8>)
    ensures
        r@ == json@.push(10),
{
    let mut r = json;
    r.push(10);
    r
}

/// Whether `bytes` holds no newline.
pub open spec fn single_line(bytes: Seq<u8>) -> bool {
    forall|k: int| 0 <= k < bytes.len() ==> bytes[k] != 10
}

proof fn lemma_split_extends_last(log: Seq<u8>, tail: Seq<u8>)
    requires
        single_line(tail),
    ensures
        split_newlines(log + tail) == split_newlines(log).update(
            split_newlines(log).len() - 1,
            split_newlines(log).last() + tail,
        ),
    decreases tail.len(),
{
    lemma_split_nonempty(log);
    if tail.len() == 0 {
        assert(log + tail =~= log);
        assert(split_newlines(log).last() + tail =~= split_newlines(log).last());
        assert(split_newlines(log).update(
            split_newlines(log).len() - 1,
            split_newlines(log).last(),
        ) =~= split_newlines(log));
    } else {
        let shorter = tail.drop_last();
        lemma_split_extends_last(log, shorter);
        assert((log + tail).drop_last() =~= log + shorter);
        assert((log + tail).last() == tail.last());
        assert(split_newlines(log).last() + shorter + seq![tail.last()] =~= split_newlines(log).last() + tail);
        let p = split_newlines(log);
        let e = split_newlines(log + shorter);
        assert(tail[tail.len() - 1] != 10);
        assert(e.len() == p.len());
        assert(e.last() == p.last() + shorter);
        assert(split_newlines(log + tail) == e.update(e.len() - 1, e.last().push(tail.last())));
        assert(e.last().push(tail.last()) =~= p.last() + tail);
        assert(split_newlines(log + tail) =~= p.update(p.len() - 1, p.last() + tail));
    }
}

/// Appending an event's line to a log that is empty or ends with a newline
/// gives back, read line by line, the log's lines followed by that line: the
/// piece after the last newline stays empty, and nothing already written
/// changes.
pub proof fn law_appended_line_reads_back(log: Seq<u8>, json: Seq<u8>)
    requires
        log.len() == 0 || log.last() == 10,
        single_line(json),
    ensures
        split_newlines(log + json.push(10)) == split_newlines(log).drop_last().push(json).push(
            seq![],
        ),
{
    lemma_split_nonempty(log);
    let p = split_newlines(log);
    assert(p.last() == Seq::<u8>::empty()) by {
        if log.len() > 0 {
            assert(split_newlines(log) == split_newlines(log.drop_last()).push(seq![]));
        }
    }
    lemma_split_extends_last(log, json);
    assert(log + json.push(10) =~= (log + json).push(10));
    assert((log + json.push(10)).drop_last() =~= log + json);
    assert(p.last() + json =~= json);
    assert(p.update(p.len() - 1, json) =~= p.drop_last().push(json));
}


proof fn lemma_split_concat(a: Seq<u8>, b: Seq<u8>)
    requires
        a.len() == 0 || a.last() == 10,
    ensures
        split_newlines(a + b) == split_newlines(a).drop_last() + split_newlines(b),
    decreases b.len(),
{
    lemma_split_nonempty(a);
    lemma_split_nonempty(b);
    let p = split_newlines(a);
    assert(p.last() == Seq::<u8>::empty()) by {
        if a.len() > 0 {
            assert(split_newlines(a) == split_newlines(a.drop_last()).push(seq![]));
        }
    }
    if b.len() == 0 {
        assert(a + b =~= a);
        assert(p.drop_last() + split_newlines(b) =~= p);
    } else {
        let shorter = b.drop_last();
        lemma_split_concat(a, shorter);
        lemma_split_nonempty(shorter);
        assert((a + b).drop_last() =~= a + shorter);
        assert((a + b).last() == b.last());
        let e = split_newlines(a + shorter);
        let t = split_newlines(shorter);
        if b.last() == 10 {
            assert(split_newlines(a + b) =~= p.drop_last() + split_newlines(b));
        } else {
            assert(e.last() == t.last());
            assert(split_newlines(a + b) == e.update(e.len() - 1, e.last().push(b.last())));
            assert(split_newlines(a + b) =~= p.drop_last() + split_newlines(b));
        }
    }
}

/// A line inserted into the log at a line boundary, newline-terminated or as
/// the unterminated last line, adds exactly one piece for the reader, in its
/// place, and leaves every other piece as it was.
pub proof fn law_inserted_line_adds_one_piece(before: Seq<u8>, line: Seq<u8>, after: Seq<u8>)
    requires
        before.len() == 0 || before.last() == 10,
        single_line(line),
    ensures
        split_newlines(before + after) == split_newlines(before).drop_last() + split_newlines(
            after,
        ),
        split_newlines(before + line.push(10) + after) == split_newlines(before).drop_last().push(
            line,
        ) + split_newlines(after),
        split_newlines(before + line) == split_newlines(before).drop_last().push(line),
{
    lemma_split_concat(before, after);
    let with_line = before + line.push(10);
    assert(with_line.last() == 10);
    lemma_split_concat(with_line, after);
    law_appended_line_reads_back(before, line);
    assert(with_line + after =~= before + line.push(10) + after);
    assert(split_newlines(with_line).drop_last() =~= split_newlines(before).drop_last().push(line));
    lemma_split_concat(before, line);
    lemma_split_extends_last(seq![], line);
    assert(seq![] + line =~= line);
    assert(split_newlines(Seq::<u8>::empty()) =~= seq![seq![]]);
    assert(split_newlines(line) =~= seq![line]);
    assert(split_newlines(before).drop_last() + seq![line] =~= split_newlines(before).drop_last().push(line));
}

/// The events among the parsed lines of a log, in order: a line that did not
/// parse is skipped.
pub open spec fn parsed_events(parsed: Seq<Option<Event>>) -> Seq<Event>
    decreases parsed.len(),
{
    if parsed.len() == 0 {
        seq![]
    } else {
        let earlier = parsed_events(parsed.drop_last());
        match parsed.last() {
            Some(event) => earlier.push(event),
            None => earlier,
        }
    }
}

/// How many of the first `i` parsed lines parsed as an event.
pub open spec fn parsed_before(parsed: Seq<Option<Event>>, i: nat) -> nat
    decreases i,
{
    if i == 0 {
        0
    } else {
        parsed_before(parsed, (i - 1) as nat) + if parsed[i - 1] is Some {
            1nat
        } else {
            0nat
        }
    }
}

proof fn lemma_parsed_before_prefix(init: Seq<Option<Event>>, x: Option<Event>, i: nat)
    requires
        i <= init.len(),
    ensures
        parsed_before(init.push(x), i) == parsed_before(init, i),
    decreases i,
{
    if i > 0 {
        lemma_parsed_before_prefix(init, x, (i - 1) as nat);
        assert(init.push(x)[i - 1] == init[i - 1]);
    }
}

proof fn lemma_parsed_before_grows(parsed: Seq<Option<Event>>, i: nat, j: nat)
    requires
        i <= j,
    ensures
        parsed_before(parsed, i) <= parsed_before(parsed, j),
    decreases j,
{
    if i < j {
        lemma_parsed_before_grows(parsed, i, (j - 1) as nat);
    }
}

/// Every line that parsed is kept, in order, and nothing else: the events
/// read are as many as the lines that parsed, and the event of the `i`th
/// line, when it parsed, comes after the events of the lines before it.
pub proof fn law_every_parsed_event_is_kept(parsed: Seq<Option<Event>>)
    ensures
        parsed_events(parsed).len() == parsed_before(parsed, parsed.len()),
        forall|i: int|
            0 <= i < parsed.len() && (#[trigger] parsed[i] is Some) ==> parsed_events(
                parsed,
            )[parsed_before(parsed, i as nat) as int] == parsed[i]->0,
    decreases parsed.len(),
{
    if parsed.len() > 0 {
        let init = parsed.drop_last();
        let x = parsed.last();
        law_every_parsed_event_is_kept(init);
        assert(init.push(x) =~= parsed);
        lemma_parsed_before_prefix(init, x, init.len());
        assert forall|i: int|
            0 <= i < parsed.len() && (#[trigger] parsed[i] is Some) implies parsed_events(
                parsed,
            )[parsed_before(parsed, i as nat) as int] == parsed[i]->0 by {
            if i < init.len() {
                assert(parsed[i] == init[i]);
                assert(init[i] is Some);
                lemma_parsed_before_prefix(init, x, i as nat);
                lemma_parsed_before_grows(init, (i + 1) as nat, init.len());
                assert(parsed_before(init, (i + 1) as nat) == parsed_before(init, i as nat) + 1);
            } else {
                assert(i == init.len());
            }
        }
    }
}

proof fn lemma_parsed_events_concat(a: Seq<Option<Event>>, b: Seq<Option<Event>>)
    ensures
        parsed_events(a + b) == parsed_events(a) + parsed_events(b),
    decreases b.len(),
{
    if b.len() == 0 {
        assert(a + b =~= a);
        assert(parsed_events(a) + parsed_events(b) =~= parsed_events(a));
    } else {
        lemma_parsed_events_concat(a, b.drop_last());
        assert((a + b).drop_last() =~= a + b.drop_last());
        assert((a + b).last() == b.last());
        match b.last() {
            Some(event) => {
                assert(parsed_events(a) + parsed_events(b.drop_last()).push(event) =~= (
                parsed_events(a) + parsed_events(b.drop_last())).push(event));
            },
            None => {},
        }
    }
}

/// The events a reader takes from the log's bytes: each line that holds
/// something given to `parse`, and the lines that parse kept in order.
pub open spec fn events_read(bytes: Seq<u8>, parse: spec_fn(Seq<u8>) -> Option<Event>) -> Seq<
    Event,
> {
    parsed_events(nonempty_pieces(split_newlines(bytes)).map_values(parse))
}

proof fn lemma_nonempty_concat(a: Seq<Seq<u8>>, b: Seq<Seq<u8>>)
    ensures
        nonempty_pieces(a + b) == nonempty_pieces(a) + nonempty_pieces(b),
    decreases b.len(),
{
    if b.len() == 0 {
        assert(a + b =~= a);
        assert(nonempty_pieces(a) + nonempty_pieces(b) =~= nonempty_pieces(a));
    } else {
        lemma_nonempty_concat(a, b.drop_last());
        assert((a + b).drop_last() =~= a + b.drop_last());
        assert((a + b).last() == b.last());
        if b.last().len() > 0 {
            assert(nonempty_pieces(a) + nonempty_pieces(b.drop_last()).push(b.last()) =~= (
            nonempty_pieces(a) + nonempty_pieces(b.drop_last())).push(b.last()));
        }
    }
}

proof fn lemma_read_pieces(
    head: Seq<Seq<u8>>,
    line: Seq<u8>,
    tail: Seq<Seq<u8>>,
    parse: spec_fn(Seq<u8>) -> Option<Event>,
)
    requires
        parse(line) is None,
    ensures
        parsed_events(nonempty_pieces(head.push(line) + tail).map_values(parse)) == parsed_events(
            nonempty_pieces(head + tail).map_values(parse),
        ),
        parsed_events(nonempty_pieces(head.push(line)).map_values(parse)) == parsed_events(
            nonempty_pieces(head).map_values(parse),
        ),
{
    lemma_nonempty_concat(head.push(line), tail);
    lemma_nonempty_concat(head, tail);
    let x = nonempty_pieces(head);
    let t = nonempty_pieces(tail);
    assert(head.push(line).drop_last() =~= head);
    let y = nonempty_pieces(head.push(line));
    assert(parsed_events(y.map_values(parse)) == parsed_events(x.map_values(parse))) by {
        if line.len() > 0 {
            assert(y == x.push(line));
            assert(y.map_values(parse) =~= x.map_values(parse).push(parse(line)));
            assert(y.map_values(parse).drop_last() =~= x.map_values(parse));
        } else {
            assert(y == x);
        }
    }
    assert((y + t).map_values(parse) =~= y.map_values(parse) + t.map_values(parse));
    assert((x + t).map_values(parse) =~= x.map_values(parse) + t.map_values(parse));
    lemma_parsed_events_concat(y.map_values(parse), t.map_values(parse));
    lemma_parsed_events_concat(x.map_values(parse), t.map_values(parse));
}

/// A line that does not parse as an event, such as the torn tail a killed
/// writer leaves, changes nothing the log says wherever it stands at a line
/// boundary, newline-terminated or as the unterminated last line: the events
/// read, and so the pending comments, are those of the log without it,
/// whatever `parse` makes of the other lines.
pub proof fn law_unparsable_line_changes_nothing(
    before: Seq<u8>,
    line: Seq<u8>,
    after: Seq<u8>,
    parse: spec_fn(Seq<u8>) -> Option<Event>,
)
    requires
        before.len() == 0 || before.last() == 10,
        single_line(line),
        parse(line) is None,
    ensures
        events_read(before + line.push(10) + after, parse) == events_read(before + after, parse),
        events_read(before + line, parse) == events_read(before, parse),
        pending_of(events_read(before + line.push(10) + after, parse)) == pending_of(
            events_read(before + after, parse),
        ),
        pending_of(events_read(before + line, parse)) == pending_of(events_read(before, parse)),
{
    lemma_split_nonempty(before);
    let whole = split_newlines(before);
    assert(whole.last() == Seq::<u8>::empty()) by {
        if before.len() > 0 {
            assert(split_newlines(before) == split_newlines(before.drop_last()).push(seq![]));
        }
    }
    law_inserted_line_adds_one_piece(before, line, after);
    let head = whole.drop_last();
    let tail = split_newlines(after);
    lemma_read_pieces(head, line, tail, parse);
    lemma_read_pieces(head, line, seq![], parse);
    assert(head.push(line) + Seq::<Seq<u8>>::empty() =~= head.push(line));
    assert(head + Seq::<Seq<u8>>::empty() =~= head);
    assert(whole =~= head.push(Seq::<u8>::empty()));
    assert(whole.drop_last() =~= head);
    assert(nonempty_pieces(whole) == nonempty_pieces(head));
}

} // verus!

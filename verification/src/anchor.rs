//! Re-locating a comment's quoted lines in the file as it reads now.
use vstd::prelude::*;

use crate::store::Comment;
use crate::text::{
    chars_equal, lemma_lines_of_concat, lines_of, rows, split_trimmed_lines, trimmed_lines,
};

verus! {

/// Where a comment's quoted lines sit in the file as it reads now, as 1-based
/// row numbers.
#[derive(Debug, Clone, Copy, PartialEq, Eq, Structural)]
pub enum Anchor {
    Anchored { start_row: usize, end_row: usize },
    Drifted { start_row_when_written: usize },
}

/// A pending comment together with the rows its quote occupies today.
#[derive(Debug, PartialEq, Eq)]
pub struct AnchoredComment {
    pub comment: Comment,
    pub anchor: Anchor,
}

impl Clone for AnchoredComment {
    fn clone(&self) -> (r: Self)
        ensures
            r == *self,
    {
        AnchoredComment { comment: self.comment.clone(), anchor: self.anchor }
    }
}

/// Whether the lines `quote` stand in `file` from index `start` on.
pub open spec fn occurs_at(quote: Seq<Seq<char>>, file: Seq<Seq<char>>, start: int) -> bool {
    &&& 0 <= start
    &&& start + quote.len() <= file.len()
    &&& file.subrange(start, start + quote.len()) == quote
}

/// How far apart two rows are.
pub open spec fn distance(a: int, b: int) -> int {
    if a >= b {
        a - b
    } else {
        b - a
    }
}

/// Whether the occurrence of `quote` at index `start` is the one nearest
/// `hint_row`, the first of them where several are equally near. Index `i`
/// is row `i + 1`.
pub open spec fn is_nearest(
    quote: Seq<Seq<char>>,
    file: Seq<Seq<char>>,
    hint_row: int,
    start: int,
) -> bool {
    &&& occurs_at(quote, file, start)
    &&& forall|j: int|
        #![trigger occurs_at(quote, file, j)]
        occurs_at(quote, file, j) ==> {
            &&& distance(start + 1, hint_row) <= distance(j + 1, hint_row)
            &&& (j < start ==> distance(start + 1, hint_row) < distance(j + 1, hint_row))
        }
}

/// Where `quote` stands in `file_text`: its trimmed lines, compared with the
/// file's trimmed lines, at the occurrence nearest `hint_row`; drift when the
/// quote has no line or occurs nowhere.
pub open spec fn located(quote: Seq<char>, file_text: Seq<char>, hint_row: usize) -> Anchor {
    let q = trimmed_lines(quote);
    let f = trimmed_lines(file_text);
    if q.len() > 0 && exists|s: int| is_nearest(q, f, hint_row as int, s) {
        let s = choose|s: int| is_nearest(q, f, hint_row as int, s);
        Anchor::Anchored { start_row: (s + 1) as usize, end_row: (s + q.len()) as usize }
    } else {
        Anchor::Drifted { start_row_when_written: hint_row }
    }
}

/// At most one occurrence is the nearest.
pub proof fn lemma_nearest_unique(
    quote: Seq<Seq<char>>,
    file: Seq<Seq<char>>,
    hint_row: int,
    a: int,
    b: int,
)
    requires
        is_nearest(quote, file, hint_row, a),
        is_nearest(quote, file, hint_row, b),
    ensures
        a == b,
{
    assert(occurs_at(quote, file, a));
    assert(occurs_at(quote, file, b));
}

/// Orders occurrences by distance from the hint, the earlier of two equally
/// near ones first.
spec fn nearness_rank(start: int, hint_row: int) -> int {
    2 * distance(start + 1, hint_row) + if start + 1 > hint_row {
        1int
    } else {
        0int
    }
}

proof fn lemma_some_nearest(quote: Seq<Seq<char>>, file: Seq<Seq<char>>, hint_row: int, s0: int)
    requires
        occurs_at(quote, file, s0),
    ensures
        exists|s: int| is_nearest(quote, file, hint_row, s),
    decreases nearness_rank(s0, hint_row),
{
    if !is_nearest(quote, file, hint_row, s0) {
        let j = choose|j: int|
            #![trigger occurs_at(quote, file, j)]
            occurs_at(quote, file, j) && !{
                &&& distance(s0 + 1, hint_row) <= distance(j + 1, hint_row)
                &&& (j < s0 ==> distance(s0 + 1, hint_row) < distance(j + 1, hint_row))
            };
        assert(nearness_rank(j, hint_row) < nearness_rank(s0, hint_row));
        lemma_some_nearest(quote, file, hint_row, j);
    }
}

/// Drift rather than a guess: a comment drifts exactly when its quote has no
/// line or no longer occurs anywhere in the file's lines, compared trimmed.
pub proof fn law_drift_only_when_absent(quote: Seq<char>, file_text: Seq<char>, hint_row: usize)
    ensures
        (located(quote, file_text, hint_row) is Drifted) <==> (trimmed_lines(quote).len() == 0
            || forall|s: int| !occurs_at(trimmed_lines(quote), trimmed_lines(file_text), s)),
        located(quote, file_text, hint_row) is Drifted ==> located(
            quote,
            file_text,
            hint_row,
        )->start_row_when_written == hint_row,
{
    let q = trimmed_lines(quote);
    let f = trimmed_lines(file_text);
    if q.len() > 0 && exists|s: int| occurs_at(q, f, s) {
        let s0 = choose|s: int| occurs_at(q, f, s);
        lemma_some_nearest(q, f, hint_row as int, s0);
    }
}

/// An anchored comment's rows hold its quote: from the start row on, the
/// file's trimmed lines are the quote's trimmed lines, and the range spans as
/// many rows as the quote has lines, starting at row 1 or later. No other
/// occurrence of the quote starts nearer the row it was written on.
pub proof fn law_anchored_rows_hold_the_quote(
    quote: Seq<char>,
    file_text: Seq<char>,
    hint_row: usize,
)
    requires
        trimmed_lines(file_text).len() <= usize::MAX,
    ensures
        located(quote, file_text, hint_row) matches Anchor::Anchored { start_row, end_row } ==> {
            &&& 1 <= start_row <= end_row
            &&& end_row - start_row + 1 == trimmed_lines(quote).len()
            &&& trimmed_lines(file_text).subrange(start_row - 1, end_row as int) == trimmed_lines(
                quote,
            )
            &&& forall|j: int|
                #![trigger occurs_at(trimmed_lines(quote), trimmed_lines(file_text), j)]
                occurs_at(trimmed_lines(quote), trimmed_lines(file_text), j) ==> distance(
                    start_row as int,
                    hint_row as int,
                ) <= distance(j + 1, hint_row as int)
        },
{
    let q = trimmed_lines(quote);
    let f = trimmed_lines(file_text);
    if q.len() > 0 && exists|s: int| is_nearest(q, f, hint_row as int, s) {
        let s = choose|s: int| is_nearest(q, f, hint_row as int, s);
        assert(occurs_at(q, f, s));
    }
}

/// Reindentation alone is not drift: two texts whose lines differ only in
/// whitespace at either end give every quote the same anchor.
pub proof fn law_reindentation_keeps_the_anchor(
    quote: Seq<char>,
    before: Seq<char>,
    after: Seq<char>,
    hint_row: usize,
)
    requires
        trimmed_lines(before) == trimmed_lines(after),
    ensures
        located(quote, before, hint_row) == located(quote, after, hint_row),
{
}

proof fn lemma_occurs_shifted(q: Seq<Seq<char>>, a: Seq<Seq<char>>, f: Seq<Seq<char>>, j: int)
    requires
        0 <= j,
    ensures
        occurs_at(q, a + f, j + a.len()) <==> occurs_at(q, f, j),
{
    let g = a + f;
    let k = a.len() as int;
    if j + q.len() <= f.len() {
        assert(g.subrange(j + k, j + k + q.len()) =~= f.subrange(j, j + q.len()));
    }
}

/// Inserting code above a comment moves its rows by the number of lines
/// inserted: text ending with a newline put before the file shifts the anchor
/// by its line count, read against the row written on shifted the same way,
/// as long as the inserted lines do not themselves start an occurrence of the
/// quote; and a drifted comment stays drifted.
pub proof fn law_inserted_lines_shift_the_anchor(
    quote: Seq<char>,
    added: Seq<char>,
    file_text: Seq<char>,
    hint_row: usize,
)
    requires
        added.len() == 0 || added.last() == '\n',
        hint_row + lines_of(added).len() <= usize::MAX,
        trimmed_lines(added + file_text).len() <= usize::MAX,
        forall|j: int|
            0 <= j < lines_of(added).len() ==> !#[trigger] occurs_at(
                trimmed_lines(quote),
                trimmed_lines(added + file_text),
                j,
            ),
    ensures
        located(quote, file_text, hint_row) matches Anchor::Anchored { start_row, end_row }
            ==> located(quote, added + file_text, (hint_row + lines_of(added).len()) as usize)
            == (Anchor::Anchored {
            start_row: (start_row + lines_of(added).len()) as usize,
            end_row: (end_row + lines_of(added).len()) as usize,
        }),
        located(quote, file_text, hint_row) is Drifted ==> located(
            quote,
            added + file_text,
            (hint_row + lines_of(added).len()) as usize,
        ) is Drifted,
{
    lemma_lines_of_concat(added, file_text);
    let q = trimmed_lines(quote);
    let a = trimmed_lines(added);
    let f = trimmed_lines(file_text);
    let g = trimmed_lines(added + file_text);
    let k = a.len() as int;
    assert(g == a + f);
    assert(k == lines_of(added).len());
    let h = hint_row as int;
    let h2 = (hint_row + lines_of(added).len()) as usize;
    assert(h2 == h + k);
    if q.len() > 0 && exists|s: int| is_nearest(q, f, h, s) {
        let s = choose|s: int| is_nearest(q, f, h, s);
        assert(occurs_at(q, f, s));
        lemma_occurs_shifted(q, a, f, s);
        assert forall|j: int|
            #![trigger occurs_at(q, g, j)]
            occurs_at(q, g, j) implies {
                &&& distance(s + k + 1, h2 as int) <= distance(j + 1, h2 as int)
                &&& (j < s + k ==> distance(s + k + 1, h2 as int) < distance(j + 1, h2 as int))
            } by {
            if j < k {
                assert(!occurs_at(q, g, j));
            }
            lemma_occurs_shifted(q, a, f, j - k);
            assert(occurs_at(q, f, j - k));
        }
        assert(is_nearest(q, g, h2 as int, s + k));
        let t = choose|t: int| is_nearest(q, g, h2 as int, t);
        lemma_nearest_unique(q, g, h2 as int, s + k, t);
    } else {
        if q.len() > 0 && exists|s: int| is_nearest(q, g, h2 as int, s) {
            let s = choose|s: int| is_nearest(q, g, h2 as int, s);
            assert(occurs_at(q, g, s));
            if s < k {
                assert(!occurs_at(q, g, s));
            }
            lemma_occurs_shifted(q, a, f, s - k);
            lemma_some_nearest(q, f, h, s - k);
        }
    }
}

/// Inserting code above a comment leaves the comment on its code: when the
/// quote occurs exactly once in the file after text ending with a newline is
/// put before it, an anchored comment moves by exactly the number of lines
/// inserted, whatever row it is read against, before or after.
pub proof fn law_inserted_lines_keep_a_single_anchor(
    quote: Seq<char>,
    added: Seq<char>,
    file_text: Seq<char>,
    hint_row: usize,
    hint_row_after: usize,
)
    requires
        added.len() == 0 || added.last() == '\n',
        trimmed_lines(added + file_text).len() <= usize::MAX,
        exists|s: int| occurs_at(trimmed_lines(quote), trimmed_lines(added + file_text), s),
        forall|s: int, t: int|
            occurs_at(trimmed_lines(quote), trimmed_lines(added + file_text), s) && occurs_at(
                trimmed_lines(quote),
                trimmed_lines(added + file_text),
                t,
            ) ==> s == t,
    ensures
        located(quote, file_text, hint_row) matches Anchor::Anchored { start_row, end_row }
            ==> located(quote, added + file_text, hint_row_after) == (Anchor::Anchored {
            start_row: (start_row + lines_of(added).len()) as usize,
            end_row: (end_row + lines_of(added).len()) as usize,
        }),
{
    lemma_lines_of_concat(added, file_text);
    let q = trimmed_lines(quote);
    let a = trimmed_lines(added);
    let f = trimmed_lines(file_text);
    let g = trimmed_lines(added + file_text);
    let k = a.len() as int;
    assert(g == a + f);
    assert(k == lines_of(added).len());
    if q.len() > 0 && exists|s: int| is_nearest(q, f, hint_row as int, s) {
        let s = choose|s: int| is_nearest(q, f, hint_row as int, s);
        assert(occurs_at(q, f, s));
        lemma_occurs_shifted(q, a, f, s);
        assert(occurs_at(q, g, s + k));
        assert forall|j: int|
            #![trigger occurs_at(q, g, j)]
            occurs_at(q, g, j) implies {
                &&& distance(s + k + 1, hint_row_after as int) <= distance(
                    j + 1,
                    hint_row_after as int,
                )
                &&& (j < s + k ==> distance(s + k + 1, hint_row_after as int) < distance(
                    j + 1,
                    hint_row_after as int,
                ))
            } by {
            assert(j == s + k);
        }
        assert(is_nearest(q, g, hint_row_after as int, s + k));
        let t = choose|t: int| is_nearest(q, g, hint_row_after as int, t);
        lemma_nearest_unique(q, g, hint_row_after as int, s + k, t);
    }
}

fn abs_diff(a: usize, b: usize) -> (r: usize)
    ensures
        r == distance(a as int, b as int),
{
    if a >= b {
        a - b
    } else {
        b - a
    }
}

/// Whether the lines `quote` stand in `file` from index `start` on.
fn window_matches(quote: &Vec<Vec<char>>, file: &Vec<Vec<char>>, start: usize) -> (r: bool)
    requires
        start + quote.len() <= file.len(),
    ensures
        r == occurs_at(rows(quote@), rows(file@), start as int),
{
    let ghost q = rows(quote@);
    let ghost f = rows(file@);
    let mut k: usize = 0;
    while k < quote.len()
        invariant
            start + quote.len() <= file.len(),
            q == rows(quote@),
            f == rows(file@),
            k <= quote.len(),
            forall|m: int| 0 <= m < k ==> f[start + m] == q[m],
        decreases quote.len() - k,
    {
        if !chars_equal(&quote[k], &file[start + k]) {
            assert(q[k as int] == quote@[k as int]@);
            assert(f[start + k] == file@[start + k]@);
            assert(f.subrange(start as int, start + q.len())[k as int] != q[k as int]);
            return false;
        }
        k = k + 1;
    }
    assert(f.subrange(start as int, start + q.len()) =~= q);
    true
}

/// The rows `quote` occupies in `file_text`, or drift when it is gone.
///
/// Lines match with whitespace trimmed at both ends, so reindentation alone is
/// not drift. Of several occurrences the one nearest `hint_row` wins; of none,
/// the answer is drift rather than a guess.
pub fn locate(quote: &str, file_text: &str, hint_row: usize) -> (r: Anchor)
    ensures
        r == located(quote@, file_text@, hint_row),
        r is Anchored ==> trimmed_lines(file_text@).len() <= usize::MAX,
{
    let drifted = Anchor::Drifted { start_row_when_written: hint_row };
    let quote_lines = split_trimmed_lines(quote);
    let ghost q = rows(quote_lines@);
    if quote_lines.len() == 0 {
        return drifted;
    }
    let file_lines = split_trimmed_lines(file_text);
    let ghost f = rows(file_lines@);
    if quote_lines.len() > file_lines.len() {
        assert forall|s: int| !#[trigger] is_nearest(q, f, hint_row as int, s) by {}
        return drifted;
    }
    assert(q.len() == quote_lines.len() && f.len() == file_lines.len());
    let last = file_lines.len() - quote_lines.len();
    let mut best: Option<usize> = None;
    let mut best_distance: usize = 0;
    let mut i: usize = 0;
    while i <= last
        invariant
            q == rows(quote_lines@),
            f == rows(file_lines@),
            q.len() > 0,
            q.len() == quote_lines.len(),
            f.len() == file_lines.len(),
            last + q.len() == f.len(),
            i <= last + 1,
            match best {
                Some(b) => {
                    &&& b < i
                    &&& occurs_at(q, f, b as int)
                    &&& best_distance == distance(b + 1, hint_row as int)
                    &&& forall|j: int|
                        #![trigger occurs_at(q, f, j)]
                        0 <= j < i && occurs_at(q, f, j) ==> {
                            &&& distance(b + 1, hint_row as int) <= distance(j + 1, hint_row as int)
                            &&& (j < b ==> distance(b + 1, hint_row as int) < distance(
                                j + 1,
                                hint_row as int,
                            ))
                        }
                },
                None => forall|j: int| 0 <= j < i ==> !#[trigger] occurs_at(q, f, j),
            },
        decreases last + 1 - i,
    {
        if window_matches(&quote_lines, &file_lines, i) {
            let d = abs_diff(i + 1, hint_row);
            match best {
                Some(_) => {
                    if d < best_distance {
                        best = Some(i);
                        best_distance = d;
                    }
                },
                None => {
                    best = Some(i);
                    best_distance = d;
                },
            }
        }
        i = i + 1;
    }
    match best {
        Some(start) => {
            assert(is_nearest(q, f, hint_row as int, start as int));
            proof {
                lemma_nearest_unique(
                    q,
                    f,
                    hint_row as int,
                    start as int,
                    choose|s: int| is_nearest(q, f, hint_row as int, s),
                );
            }
            Anchor::Anchored { start_row: start + 1, end_row: start + quote_lines.len() }
        },
        None => {
            assert forall|s: int| !#[trigger] is_nearest(q, f, hint_row as int, s) by {
                if is_nearest(q, f, hint_row as int, s) {
                    assert(occurs_at(q, f, s));
                }
            }
            drifted
        },
    }
}


/// The anchor of `comment` given the text of its file: re-located in the text
/// when the file could be read, drifted at the row it was written on when not.
pub open spec fn anchor_for(comment: Comment, file_text: Option<String>) -> Anchor {
    match file_text {
        Some(text) => located(comment.quote@, text@, comment.start_row),
        None => Anchor::Drifted { start_row_when_written: comment.start_row },
    }
}

/// A comment is re-located against the row it was written on: in a readable
/// file, an anchored comment stands where its quote occurs, at the occurrence
/// nearest its own `start_row`; a drifted one carries its own `start_row` and
/// its quote occurs nowhere (or has no line); and with no file text it
/// drifts at its own `start_row`.
pub proof fn law_anchor_is_found_from_the_written_row(comment: Comment, file_text: Option<String>)
    requires
        file_text matches Some(t) ==> trimmed_lines(t@).len() <= usize::MAX,
    ensures
        anchor_for(comment, file_text) matches Anchor::Drifted { start_row_when_written }
            ==> start_row_when_written == comment.start_row,
        file_text is None ==> anchor_for(comment, file_text) is Drifted,
        file_text matches Some(t) ==> (anchor_for(comment, file_text) is Drifted <==> (
        trimmed_lines(comment.quote@).len() == 0 || forall|j: int|
            !occurs_at(trimmed_lines(comment.quote@), trimmed_lines(t@), j))),
        file_text matches Some(t) ==> (anchor_for(comment, file_text) matches Anchor::Anchored {
            start_row,
            end_row,
        } ==> {
            &&& occurs_at(
                trimmed_lines(comment.quote@),
                trimmed_lines(t@),
                start_row - 1,
            )
            &&& end_row - start_row + 1 == trimmed_lines(comment.quote@).len()
            &&& forall|j: int|
                #![trigger occurs_at(trimmed_lines(comment.quote@), trimmed_lines(t@), j)]
                occurs_at(trimmed_lines(comment.quote@), trimmed_lines(t@), j) ==> distance(
                    start_row as int,
                    comment.start_row as int,
                ) <= distance(j + 1, comment.start_row as int)
        }),
{
    if let Some(t) = file_text {
        law_drift_only_when_absent(comment.quote@, t@, comment.start_row);
        law_anchored_rows_hold_the_quote(comment.quote@, t@, comment.start_row);
        let q = trimmed_lines(comment.quote@);
        let f = trimmed_lines(t@);
        match located(comment.quote@, t@, comment.start_row) {
            Anchor::Anchored { start_row, end_row } => {
                assert(f.subrange(start_row - 1, end_row as int) == q);
                assert(occurs_at(q, f, start_row - 1));
            },
            _ => {},
        }
    }
}

/// Every comment re-located against the text its file holds now, in order.
///
/// Each comment comes with the text of its file, or `None` when that file
/// could not be read; such a comment is reported as drifted, so one deleted or
/// unreadable file cannot cost the caller every other comment.
pub fn pending(sources: Vec<(Comment, Option<String>)>) -> (r: Vec<AnchoredComment>)
    ensures
        r@.len() == sources@.len(),
        forall|i: int|
            0 <= i < r@.len() ==> {
                &&& #[trigger] r@[i].comment == sources@[i].0
                &&& r@[i].anchor == anchor_for(sources@[i].0, sources@[i].1)
            },
        forall|i: int|
            #![trigger r@[i]]
            0 <= i < r@.len() ==> match sources@[i].1 {
                Some(text) => r@[i].anchor == located(
                    sources@[i].0.quote@,
                    text@,
                    sources@[i].0.start_row,
                ),
                None => r@[i].anchor == Anchor::Drifted {
                    start_row_when_written: sources@[i].0.start_row,
                },
            },
{
    let mut r: Vec<AnchoredComment> = Vec::new();
    let mut i: usize = 0;
    while i < sources.len()
        invariant
            i <= sources@.len(),
            r@.len() == i,
            forall|k: int|
                0 <= k < i ==> {
                    &&& #[trigger] r@[k].comment == sources@[k].0
                    &&& r@[k].anchor == anchor_for(sources@[k].0, sources@[k].1)
                },
        decreases sources.len() - i,
    {
        let comment = &sources[i].0;
        let text = &sources[i].1;
        let anchor = match text {
            Some(t) => locate(comment.quote.as_str(), t.as_str(), comment.start_row),
            None => Anchor::Drifted { start_row_when_written: comment.start_row },
        };
        assert(anchor == anchor_for(sources@[i as int].0, sources@[i as int].1));
        r.push(AnchoredComment { comment: comment.clone(), anchor });
        i = i + 1;
    }
    assert forall|i: int| #![trigger r@[i]] 0 <= i < r@.len() implies match sources@[i].1 {
        Some(text) => r@[i].anchor == located(sources@[i].0.quote@, text@, sources@[i].0.start_row),
        None => r@[i].anchor == Anchor::Drifted { start_row_when_written: sources@[i].0.start_row },
    } by {
        assert(r@[i].comment == sources@[i].0);
    }
    r
}

} // verus!

//! Lines, trimming and decimal numerals, over the characters of a string.
use vstd::prelude::*;
use vstd::string::StringExecFns;

verus! {

/// Appends one character to a `String`.
///
/// Calls `String::push`, which std documents as appending the character to the
/// end of the string; the contract says exactly that of the string's characters.
#[verifier::external_body]
pub(crate) fn push_char(s: &mut String, c: char)
    ensures
        final(s)@ == old(s)@.push(c),
{
    s.push(c);
}

/// Appends a string slice to a `String`.
pub(crate) fn push_str(s: &mut String, t: &str)
    ensures
        final(s)@ == old(s)@ + t@,
{
    s.append(t);
}

// ---------------------------------------------------------------------------
// Whitespace and trimming
// ---------------------------------------------------------------------------

/// The characters with the Unicode `White_Space` property, which is what
/// `char::is_whitespace`, and so `str::trim`, strips.
pub open spec fn is_whitespace(c: char) -> bool {
    ||| c == '\t'
    ||| c == '\n'
    ||| c == '\x0B'
    ||| c == '\x0C'
    ||| c == '\r'
    ||| c == ' '
    ||| c == '\u{85}'
    ||| c == '\u{A0}'
    ||| c == '\u{1680}'
    ||| ('\u{2000}' <= c && c <= '\u{200A}')
    ||| c == '\u{2028}'
    ||| c == '\u{2029}'
    ||| c == '\u{202F}'
    ||| c == '\u{205F}'
    ||| c == '\u{3000}'
}

/// `s` without its leading whitespace.
pub open spec fn trim_start(s: Seq<char>) -> Seq<char>
    decreases s.len(),
{
    if s.len() > 0 && is_whitespace(s[0]) {
        trim_start(s.drop_first())
    } else {
        s
    }
}

/// `s` without its trailing whitespace.
pub open spec fn trim_end(s: Seq<char>) -> Seq<char>
    decreases s.len(),
{
    if s.len() > 0 && is_whitespace(s.last()) {
        trim_end(s.drop_last())
    } else {
        s
    }
}

/// `s` with whitespace removed at both ends, as `str::trim` gives it.
pub open spec fn trim(s: Seq<char>) -> Seq<char> {
    trim_end(trim_start(s))
}

proof fn lemma_trim_start_shape(s: Seq<char>)
    ensures
        exists|lo: int|
            0 <= lo <= s.len() && trim_start(s) == s.subrange(lo, s.len() as int) && (forall|k: int|
                0 <= k < lo ==> is_whitespace(#[trigger] s[k])),
        trim_start(s).len() > 0 ==> !is_whitespace(trim_start(s)[0]),
    decreases s.len(),
{
    if s.len() > 0 && is_whitespace(s[0]) {
        let t = s.drop_first();
        lemma_trim_start_shape(t);
        let lo = choose|lo: int|
            0 <= lo <= t.len() && trim_start(t) == t.subrange(lo, t.len() as int) && (forall|k: int|
                0 <= k < lo ==> is_whitespace(#[trigger] t[k]));
        assert(t.subrange(lo, t.len() as int) =~= s.subrange(lo + 1, s.len() as int));
        assert forall|k: int| 0 <= k < lo + 1 implies is_whitespace(#[trigger] s[k]) by {
            if k > 0 {
                assert(s[k] == t[k - 1]);
            }
        }
    } else {
        assert(s.subrange(0, s.len() as int) =~= s);
    }
}

proof fn lemma_trim_end_shape(s: Seq<char>)
    ensures
        exists|hi: int|
            0 <= hi <= s.len() && trim_end(s) == s.subrange(0, hi) && (forall|k: int|
                hi <= k < s.len() ==> is_whitespace(#[trigger] s[k])),
        trim_end(s).len() > 0 ==> !is_whitespace(trim_end(s).last()),
    decreases s.len(),
{
    if s.len() > 0 && is_whitespace(s.last()) {
        let t = s.drop_last();
        lemma_trim_end_shape(t);
        let hi = choose|hi: int|
            0 <= hi <= t.len() && trim_end(t) == t.subrange(0, hi) && (forall|k: int|
                hi <= k < t.len() ==> is_whitespace(#[trigger] t[k]));
        assert(t.subrange(0, hi) =~= s.subrange(0, hi));
        assert forall|k: int| hi <= k < s.len() implies is_whitespace(#[trigger] s[k]) by {
            if k < s.len() - 1 {
                assert(s[k] == t[k]);
            }
        }
    } else {
        assert(s.subrange(0, s.len() as int) =~= s);
    }
}

/// Trimming removes whitespace at both ends and nothing else: the result is
/// the text between some start and end, everything before the start and after
/// the end is whitespace, and the result neither starts nor ends with
/// whitespace.
pub proof fn law_trim_removes_only_outer_whitespace(s: Seq<char>)
    ensures
        exists|lo: int, hi: int|
            0 <= lo <= hi <= s.len() && trim(s) == s.subrange(lo, hi) && (forall|k: int|
                0 <= k < lo ==> is_whitespace(#[trigger] s[k])) && (forall|k: int|
                hi <= k < s.len() ==> is_whitespace(#[trigger] s[k])),
        trim(s).len() > 0 ==> !is_whitespace(trim(s)[0]) && !is_whitespace(trim(s).last()),
{
    lemma_trim_start_shape(s);
    let t = trim_start(s);
    lemma_trim_end_shape(t);
    let lo = choose|lo: int|
        0 <= lo <= s.len() && trim_start(s) == s.subrange(lo, s.len() as int) && (forall|k: int|
            0 <= k < lo ==> is_whitespace(#[trigger] s[k]));
    let hi = choose|hi: int|
        0 <= hi <= t.len() && trim_end(t) == t.subrange(0, hi) && (forall|k: int|
            hi <= k < t.len() ==> is_whitespace(#[trigger] t[k]));
    assert(trim(s) =~= s.subrange(lo, lo + hi));
    assert forall|k: int| lo + hi <= k < s.len() implies is_whitespace(#[trigger] s[k]) by {
        assert(s[k] == t[k - lo]);
    }
    if trim(s).len() > 0 {
        assert(trim(s)[0] == t[0]);
    }
    assert(exists|a: int, b: int|
        0 <= a <= b <= s.len() && trim(s) == s.subrange(a, b) && (forall|k: int|
            0 <= k < a ==> is_whitespace(#[trigger] s[k])) && (forall|k: int|
            b <= k < s.len() ==> is_whitespace(#[trigger] s[k]))) by {
        assert(0 <= lo <= lo + hi <= s.len());
    }
}

/// Whether `c` is whitespace.
pub fn is_whitespace_char(c: char) -> (r: bool)
    ensures
        r == is_whitespace(c),
{
    c == '\t' || c == '\n' || c == '\x0B' || c == '\x0C' || c == '\r' || c == ' ' || c
        == '\u{85}' || c == '\u{A0}' || c == '\u{1680}' || ('\u{2000}' <= c && c <= '\u{200A}')
        || c == '\u{2028}' || c == '\u{2029}' || c == '\u{202F}' || c == '\u{205F}' || c
        == '\u{3000}'
}

/// The characters of `v` with whitespace removed at both ends.
pub fn trim_chars(v: &Vec<char>) -> (r: Vec<char>)
    ensures
        r@ == trim(v@),
{
    let n = v.len();
    let mut lo: usize = 0;
    assert(v@.subrange(0, n as int) =~= v@);
    while lo < n && is_whitespace_char(v[lo])
        invariant
            n == v@.len(),
            lo <= n,
            trim_start(v@) == trim_start(v@.subrange(lo as int, n as int)),
        decreases n - lo,
    {
        assert(v@.subrange(lo as int, n as int).drop_first() =~= v@.subrange(
            lo + 1,
            n as int,
        ));
        lo = lo + 1;
    }
    let ghost t = v@.subrange(lo as int, n as int);
    assert(trim_start(t) == t);
    let mut hi: usize = n;
    while hi > lo && is_whitespace_char(v[hi - 1])
        invariant
            n == v@.len(),
            lo <= hi <= n,
            t == v@.subrange(lo as int, n as int),
            trim_end(t) == trim_end(v@.subrange(lo as int, hi as int)),
        decreases hi,
    {
        assert(v@.subrange(lo as int, hi as int).drop_last() =~= v@.subrange(
            lo as int,
            hi - 1,
        ));
        hi = hi - 1;
    }
    let mut r: Vec<char> = Vec::new();
    let mut k: usize = lo;
    while k < hi
        invariant
            n == v@.len(),
            lo <= k <= hi <= n,
            r@ == v@.subrange(lo as int, k as int),
        decreases hi - k,
    {
        r.push(v[k]);
        assert(r@ =~= v@.subrange(lo as int, k + 1));
        k = k + 1;
    }
    r
}

// ---------------------------------------------------------------------------
// Lines
// ---------------------------------------------------------------------------

/// `l` without one trailing carriage return.
pub open spec fn strip_cr(l: Seq<char>) -> Seq<char> {
    if l.len() > 0 && l.last() == '\r' {
        l.drop_last()
    } else {
        l
    }
}

/// Reading `s` from the front: the lines that a newline has closed, each
/// without its line ending, and the text after the last newline.
pub open spec fn scan_lines(s: Seq<char>) -> (Seq<Seq<char>>, Seq<char>)
    decreases s.len(),
{
    if s.len() == 0 {
        (seq![], seq![])
    } else {
        let (done, cur) = scan_lines(s.drop_last());
        if s.last() == '\n' {
            (done.push(strip_cr(cur)), seq![])
        } else {
            (done, cur.push(s.last()))
        }
    }
}

/// The lines of `s` as `str::lines` gives them: split at `\n` or `\r\n`,
/// without the line endings, and with no empty line after a final newline.
pub open spec fn lines_of(s: Seq<char>) -> Seq<Seq<char>> {
    let (done, cur) = scan_lines(s);
    if cur.len() == 0 {
        done
    } else {
        done.push(cur)
    }
}

/// The character sequences held by a sequence of character vectors.
pub open spec fn rows(v: Seq<Vec<char>>) -> Seq<Seq<char>> {
    v.map_values(|x: Vec<char>| x@)
}

/// The lines of `s`, each as a vector of characters.
pub fn split_lines(s: &str) -> (r: Vec<Vec<char>>)
    ensures
        rows(r@) == lines_of(s@),
{
    let mut done: Vec<Vec<char>> = Vec::new();
    let mut cur: Vec<char> = Vec::new();
    for c in it: s.chars()
        invariant
            it.seq() == s@,
            (rows(done@), cur@) == scan_lines(s@.take(it.index() as int)),
    {
        let ghost prefix = s@.take(it.index() as int);
        assert(s@.take(it.index() + 1).drop_last() =~= prefix);
        if c == '\n' {
            if cur.len() > 0 && cur[cur.len() - 1] == '\r' {
                cur.pop();
            }
            let line = cur;
            cur = Vec::new();
            done.push(line);
            assert(rows(done@) =~= scan_lines(prefix).0.push(strip_cr(scan_lines(prefix).1)));
        } else {
            cur.push(c);
        }
    }
    assert(s@.take(s@.len() as int) =~= s@);
    if cur.len() > 0 {
        done.push(cur);
        assert(rows(done@) =~= lines_of(s@));
    }
    done
}

proof fn lemma_scan_lines_concat(a: Seq<char>, b: Seq<char>)
    requires
        a.len() == 0 || a.last() == '\n',
    ensures
        scan_lines(a + b) == (lines_of(a) + scan_lines(b).0, scan_lines(b).1),
    decreases b.len(),
{
    if b.len() == 0 {
        assert(a + b =~= a);
        if a.len() > 0 {
            assert(scan_lines(a).1 == Seq::<char>::empty());
        }
        assert(lines_of(a) + scan_lines(b).0 =~= lines_of(a));
    } else {
        let shorter = b.drop_last();
        lemma_scan_lines_concat(a, shorter);
        assert((a + b).drop_last() =~= a + shorter);
        assert((a + b).last() == b.last());
        let (d, c) = scan_lines(shorter);
        if b.last() == '\n' {
            assert((lines_of(a) + d).push(strip_cr(c)) =~= lines_of(a) + d.push(strip_cr(c)));
        }
    }
}

/// The lines of text that ends with a newline, followed by more text, are
/// the lines of the first part followed by the lines of the second.
pub(crate) proof fn lemma_lines_of_concat(a: Seq<char>, b: Seq<char>)
    requires
        a.len() == 0 || a.last() == '\n',
    ensures
        lines_of(a + b) == lines_of(a) + lines_of(b),
        trimmed_lines(a + b) == trimmed_lines(a) + trimmed_lines(b),
{
    lemma_scan_lines_concat(a, b);
    let (d, c) = scan_lines(b);
    if c.len() > 0 {
        assert((lines_of(a) + d).push(c) =~= lines_of(a) + d.push(c));
    }
    assert(trimmed_lines(a + b) =~= trimmed_lines(a) + trimmed_lines(b));
}

/// The lines `lines`, each followed by a newline, one after the other.
pub open spec fn joined_lines(lines: Seq<Seq<char>>) -> Seq<char>
    decreases lines.len(),
{
    if lines.len() == 0 {
        seq![]
    } else {
        joined_lines(lines.drop_last()) + lines.last().push('\n')
    }
}

/// Whether `s` holds the character `c`.
pub open spec fn holds(s: Seq<char>, c: char) -> bool {
    exists|k: int| 0 <= k < s.len() && s[k] == c
}

proof fn lemma_scan_lines_rejoin(s: Seq<char>)
    requires
        !holds(s, '\r'),
    ensures
        joined_lines(scan_lines(s).0) + scan_lines(s).1 == s,
        !holds(scan_lines(s).1, '\n'),
        forall|i: int|
            0 <= i < scan_lines(s).0.len() ==> !holds(#[trigger] scan_lines(s).0[i], '\n'),
    decreases s.len(),
{
    if s.len() > 0 {
        let init = s.drop_last();
        assert(!holds(init, '\r')) by {
            if holds(init, '\r') {
                let k = choose|k: int| 0 <= k < init.len() && init[k] == '\r';
                assert(s[k] == '\r');
            }
        }
        lemma_scan_lines_rejoin(init);
        let (done, cur) = scan_lines(init);
        assert(s.last() != '\r') by {
            assert(s[s.len() - 1] == s.last());
        }
        if s.last() == '\n' {
            assert(strip_cr(cur) == cur) by {
                if cur.len() > 0 && cur.last() == '\r' {
                    assert(holds(cur, '\r'));
                    assert(cur == init.subrange(init.len() - cur.len(), init.len() as int)) by {
                        assert(init =~= joined_lines(done) + cur);
                        assert((joined_lines(done) + cur).subrange(
                            joined_lines(done).len() as int,
                            init.len() as int,
                        ) =~= cur);
                    }
                    assert(init[init.len() - 1] == '\r');
                }
            }
            let done2 = done.push(cur);
            assert(done2.drop_last() =~= done);
            assert(s =~= init.push(s.last()));
            assert(joined_lines(done2) == joined_lines(done) + cur.push('\n'));
            assert(joined_lines(done2) + Seq::<char>::empty() =~= s);
            assert forall|i: int| 0 <= i < done2.len() implies !holds(#[trigger] done2[i], '\n') by {
                if i < done.len() {
                    assert(done2[i] == done[i]);
                }
            }
            assert(!holds(Seq::<char>::empty(), '\n'));
        } else {
            assert(s =~= init.push(s.last()));
            assert(joined_lines(done) + cur.push(s.last()) =~= s);
            assert(!holds(cur.push(s.last()), '\n')) by {
                if holds(cur.push(s.last()), '\n') {
                    let k = choose|k: int| 0 <= k < cur.push(s.last()).len() && cur.push(s.last())[k] == '\n';
                    if k < cur.len() {
                        assert(cur[k] == '\n');
                    }
                }
            }
        }
    }
}

/// Lines split at newlines and nothing else: no line holds a newline, and,
/// for text with no carriage return, the lines each followed by a newline
/// give back the text, with a newline added when the text did not end with
/// one.
pub proof fn law_lines_give_back_the_text(s: Seq<char>)
    ensures
        forall|i: int| 0 <= i < lines_of(s).len() ==> !holds(#[trigger] lines_of(s)[i], '\n'),
        !holds(s, '\r') && (s.len() == 0 || s.last() == '\n') ==> joined_lines(lines_of(s)) == s,
        !holds(s, '\r') && s.len() > 0 && s.last() != '\n' ==> joined_lines(lines_of(s)) == s.push(
            '\n',
        ),
{
    lemma_lines_have_no_newline(s);
    if !holds(s, '\r') {
        lemma_scan_lines_rejoin(s);
        let (done, cur) = scan_lines(s);
        if cur.len() == 0 {
            assert(joined_lines(done) + cur =~= joined_lines(done));
            if s.len() > 0 && s.last() != '\n' {
                assert(s == joined_lines(done));
                lemma_joined_ends_with_newline(done);
            }
        } else {
            let ls = done.push(cur);
            assert(ls.drop_last() =~= done);
            assert(joined_lines(ls) == joined_lines(done) + cur.push('\n'));
            assert(joined_lines(done) + cur.push('\n') =~= (joined_lines(done) + cur).push('\n'));
            if s.len() > 0 && s.last() == '\n' {
                assert(s.last() == cur.last());
                assert(holds(cur, '\n')) by {
                    assert(cur[cur.len() - 1] == '\n');
                }
            }
        }
    }
}

proof fn lemma_joined_ends_with_newline(lines: Seq<Seq<char>>)
    ensures
        joined_lines(lines).len() == 0 || joined_lines(lines).last() == '\n',
{
    if lines.len() > 0 {
        let j = joined_lines(lines);
        assert(j == joined_lines(lines.drop_last()) + lines.last().push('\n'));
        assert(j.last() == '\n');
    }
}

proof fn lemma_lines_have_no_newline(s: Seq<char>)
    ensures
        forall|i: int| 0 <= i < lines_of(s).len() ==> !holds(#[trigger] lines_of(s)[i], '\n'),
        forall|i: int|
            0 <= i < scan_lines(s).0.len() ==> !holds(#[trigger] scan_lines(s).0[i], '\n'),
        !holds(scan_lines(s).1, '\n'),
    decreases s.len(),
{
    if s.len() > 0 {
        let init = s.drop_last();
        lemma_lines_have_no_newline(init);
        let (done, cur) = scan_lines(init);
        if s.last() == '\n' {
            let done2 = done.push(strip_cr(cur));
            assert(!holds(strip_cr(cur), '\n')) by {
                if holds(strip_cr(cur), '\n') {
                    let k = choose|k: int| 0 <= k < strip_cr(cur).len() && strip_cr(cur)[k] == '\n';
                    assert(cur[k] == '\n');
                }
            }
            assert forall|i: int| 0 <= i < done2.len() implies !holds(#[trigger] done2[i], '\n') by {
                if i < done.len() {
                    assert(done2[i] == done[i]);
                }
            }
            assert(!holds(Seq::<char>::empty(), '\n'));
        } else {
            assert(!holds(cur.push(s.last()), '\n')) by {
                if holds(cur.push(s.last()), '\n') {
                    let k = choose|k: int| 0 <= k < cur.push(s.last()).len() && cur.push(s.last())[k] == '\n';
                    if k < cur.len() {
                        assert(cur[k] == '\n');
                    }
                }
            }
        }
    }
    let (done, cur) = scan_lines(s);
    if cur.len() > 0 {
        assert forall|i: int| 0 <= i < done.push(cur).len() implies !holds(#[trigger] done.push(cur)[i], '\n') by {
            if i < done.len() {
                assert(done.push(cur)[i] == done[i]);
            }
        }
    }
}

/// The lines of `s`, each trimmed at both ends.
pub open spec fn trimmed_lines(s: Seq<char>) -> Seq<Seq<char>> {
    lines_of(s).map_values(|l: Seq<char>| trim(l))
}

/// The lines of `s`, each trimmed at both ends, as vectors of characters.
pub fn split_trimmed_lines(s: &str) -> (r: Vec<Vec<char>>)
    ensures
        rows(r@) == trimmed_lines(s@),
{
    let lines = split_lines(s);
    let mut r: Vec<Vec<char>> = Vec::new();
    let mut i: usize = 0;
    while i < lines.len()
        invariant
            i <= lines.len(),
            rows(lines@) == lines_of(s@),
            rows(r@) =~= trimmed_lines(s@).take(i as int),
        decreases lines.len() - i,
    {
        let t = trim_chars(&lines[i]);
        assert(rows(lines@).len() == lines@.len());
        assert(rows(lines@)[i as int] == lines@[i as int]@);
        assert(trimmed_lines(s@)[i as int] == trim(lines_of(s@)[i as int]));
        let ghost before = rows(r@);
        r.push(t);
        assert(rows(r@) =~= before.push(t@));
        assert(rows(r@) =~= trimmed_lines(s@).take(i + 1));
        i = i + 1;
    }
    r
}

/// The characters of `s`, in order.
pub fn chars_of(s: &str) -> (r: Vec<char>)
    ensures
        r@ == s@,
{
    let mut r: Vec<char> = Vec::new();
    for c in it: s.chars()
        invariant
            it.seq() == s@,
            r@ == s@.take(it.index() as int),
    {
        r.push(c);
        assert(r@ =~= s@.take(it.index() + 1));
    }
    assert(s@.take(s@.len() as int) =~= s@);
    r
}

/// `s` with whitespace removed at both ends, as `str::trim` gives it.
pub fn trim_str(s: &str) -> (r: String)
    ensures
        r@ == trim(s@),
{
    let chars = chars_of(s);
    let trimmed = trim_chars(&chars);
    string_from_chars(&trimmed)
}

// ---------------------------------------------------------------------------
// Equality and conversion
// ---------------------------------------------------------------------------

/// Whether two vectors of characters hold the same characters.
pub fn chars_equal(a: &Vec<char>, b: &Vec<char>) -> (r: bool)
    ensures
        r == (a@ == b@),
{
    if a.len() != b.len() {
        return false;
    }
    let mut i: usize = 0;
    while i < a.len()
        invariant
            a.len() == b.len(),
            i <= a.len(),
            forall|k: int| 0 <= k < i ==> a@[k] == b@[k],
        decreases a.len() - i,
    {
        if a[i] != b[i] {
            return false;
        }
        i = i + 1;
    }
    assert(a@ =~= b@);
    true
}

/// A `String` holding the characters of `v`.
pub fn string_from_chars(v: &Vec<char>) -> (r: String)
    ensures
        r@ == v@,
{
    let mut r = String::new();
    let mut i: usize = 0;
    while i < v.len()
        invariant
            i <= v.len(),
            r@ == v@.take(i as int),
        decreases v.len() - i,
    {
        push_char(&mut r, v[i]);
        assert(r@ =~= v@.take(i + 1));
        i = i + 1;
    }
    assert(v@.take(v.len() as int) =~= v@);
    r
}

// ---------------------------------------------------------------------------
// Decimal numerals
// ---------------------------------------------------------------------------

/// The character of the decimal digit `d`.
pub open spec fn digit_char(d: nat) -> char {
    (d + 48) as char
}

/// The decimal numeral of `n`, as `format!("{}", n)` writes it.
pub open spec fn decimal(n: nat) -> Seq<char>
    decreases n,
{
    if n < 10 {
        seq![digit_char(n)]
    } else {
        decimal(n / 10).push(digit_char(n % 10))
    }
}

/// Appends the decimal numeral of `n` to `s`.
pub fn push_decimal(s: &mut String, n: u128)
    ensures
        final(s)@ == old(s)@ + decimal(n as nat),
    decreases n,
{
    if n >= 10 {
        push_decimal(s, n / 10);
    }
    let d: u8 = (n % 10) as u8;
    let c: char = (d + 48) as char;
    push_char(s, c);
    proof {
        if n >= 10 {
            assert(decimal(n as nat) == decimal((n / 10) as nat).push(digit_char((n % 10) as nat)));
        }
    }
    assert(s@ =~= old(s)@ + decimal(n as nat));
}

proof fn lemma_decimal_shape(n: nat)
    ensures
        decimal(n).len() >= 1,
        n >= 10 ==> decimal(n).len() >= 2,
        decimal(n).last() == digit_char(n % 10),
    decreases n,
{
    if n >= 10 {
        lemma_decimal_shape(n / 10);
    }
}

/// The number a string of decimal digits writes, most significant first.
pub open spec fn digits_value(s: Seq<char>) -> int
    decreases s.len(),
{
    if s.len() == 0 {
        0
    } else {
        digits_value(s.drop_last()) * 10 + (s.last() as int - 48)
    }
}

/// The decimal numeral of `n` is made of the digits `0` to `9`, writes `n`,
/// and starts with `0` only when it is `0` itself.
pub proof fn law_decimal_writes_the_number(n: nat)
    ensures
        forall|k: int| 0 <= k < decimal(n).len() ==> '0' <= #[trigger] decimal(n)[k] <= '9',
        digits_value(decimal(n)) == n,
        decimal(n)[0] == '0' ==> n == 0,
        decimal(n).len() >= 1,
    decreases n,
{
    lemma_decimal_shape(n);
    assert(digit_char(n % 10) as int == n % 10 + 48);
    if n < 10 {
        assert(decimal(n).drop_last() =~= Seq::<char>::empty());
        assert(n % 10 == n);
        assert(digits_value(decimal(n)) == digits_value(Seq::<char>::empty()) * 10 + (digit_char(n)
            as int - 48));
    }
    if n >= 10 {
        law_decimal_writes_the_number(n / 10);
        let d = decimal(n);
        assert(d.drop_last() =~= decimal(n / 10));
        assert(d.last() == digit_char(n % 10));
        assert(digits_value(d) == digits_value(decimal(n / 10)) * 10 + (d.last() as int - 48));
        assert(n == (n / 10) * 10 + n % 10) by (nonlinear_arith);
        assert(digits_value(decimal(n / 10)) == n / 10);
        assert(digits_value(d) == n);
        assert(d[0] == decimal(n / 10)[0]);
        assert forall|k: int| 0 <= k < d.len() implies '0' <= #[trigger] d[k] <= '9' by {
            if k < d.len() - 1 {
                assert(d[k] == decimal(n / 10)[k]);
            }
        }
    }
}

/// Distinct numbers have distinct decimal numerals.
pub proof fn lemma_decimal_injective(a: nat, b: nat)
    requires
        decimal(a) == decimal(b),
    ensures
        a == b,
    decreases a,
{
    lemma_decimal_shape(a);
    lemma_decimal_shape(b);
    assert(a % 10 == b % 10) by {
        assert(digit_char(a % 10) == digit_char(b % 10));
        assert((a % 10 + 48) as char == (b % 10 + 48) as char);
    }
    if a >= 10 && b >= 10 {
        assert(decimal(a).drop_last() =~= decimal(a / 10));
        assert(decimal(b).drop_last() =~= decimal(b / 10));
        lemma_decimal_injective(a / 10, b / 10);
    }
}

} // verus!

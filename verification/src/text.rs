//! Text: the operations on characters and strings that the shell is built on.
//!
//! Every string is modelled by the sequence of its characters.

use vstd::prelude::*;
use vstd::slice::slice_subrange;

verus! {

// ---------------------------------------------------------------------------
// Characters
// ---------------------------------------------------------------------------

/// The characters with the Unicode property `White_Space`.
pub open spec fn is_space(c: char) -> bool {
    ||| '\u{9}' <= c <= '\u{d}'
    ||| c == ' '
    ||| c == '\u{85}'
    ||| c == '\u{a0}'
    ||| c == '\u{1680}'
    ||| '\u{2000}' <= c <= '\u{200a}'
    ||| c == '\u{2028}'
    ||| c == '\u{2029}'
    ||| c == '\u{202f}'
    ||| c == '\u{205f}'
    ||| c == '\u{3000}'
}

/// Whether `c` is white space.
pub fn space(c: char) -> (r: bool)
    ensures
        r == is_space(c),
{
    ('\u{9}' <= c && c <= '\u{d}') || c == ' ' || c == '\u{85}' || c == '\u{a0}' || c == '\u{1680}'
        || ('\u{2000}' <= c && c <= '\u{200a}') || c == '\u{2028}' || c == '\u{2029}'
        || c == '\u{202f}' || c == '\u{205f}' || c == '\u{3000}'
}

pub open spec fn is_ascii_letter(c: char) -> bool {
    'a' <= c <= 'z' || 'A' <= c <= 'Z'
}

pub open spec fn is_digit(c: char) -> bool {
    '0' <= c <= '9'
}

/// What `char::is_alphabetic` answers for a character beyond ASCII.
pub uninterp spec fn unicode_alphabetic(c: char) -> bool;

/// What `char::is_alphanumeric` answers for a character beyond ASCII.
pub uninterp spec fn unicode_alphanumeric(c: char) -> bool;

/// The characters with the Unicode property `Alphabetic`.
pub open spec fn is_alphabetic(c: char) -> bool {
    if c <= '\u{7f}' {
        is_ascii_letter(c)
    } else {
        unicode_alphabetic(c)
    }
}

/// The characters that are alphabetic or numeric.
pub open spec fn is_alphanumeric(c: char) -> bool {
    if c <= '\u{7f}' {
        is_ascii_letter(c) || is_digit(c)
    } else {
        unicode_alphanumeric(c)
    }
}

/// `char::is_alphabetic`: whether `c` has the Unicode property `Alphabetic`.
/// Of the ASCII characters exactly the letters have it; what the tables hold
/// beyond ASCII is named, not written out.
#[verifier::external_body]
pub(crate) fn alphabetic(c: char) -> (r: bool)
    ensures
        r == (if c <= '\u{7f}' {
            is_ascii_letter(c)
        } else {
            unicode_alphabetic(c)
        }),
{
    c.is_alphabetic()
}

/// `char::is_alphanumeric`: whether `c` is alphabetic or numeric in the sense
/// of Unicode. Of the ASCII characters exactly the letters and the digits are;
/// what the tables hold beyond ASCII is named, not written out.
#[verifier::external_body]
pub(crate) fn alphanumeric(c: char) -> (r: bool)
    ensures
        r == (if c <= '\u{7f}' {
            is_ascii_letter(c) || is_digit(c)
        } else {
            unicode_alphanumeric(c)
        }),
{
    c.is_alphanumeric()
}

// ---------------------------------------------------------------------------
// Strings and their characters
// ---------------------------------------------------------------------------

/// `String::push`: appends one character at the end.
pub assume_specification[ String::push ](s: &mut String, c: char)
    ensures
        final(s)@ == old(s)@.push(c),
;

/// The characters of `s`, in order.
pub fn chars_of(s: &str) -> (r: Vec<char>)
    ensures
        r@ == s@,
{
    let mut r: Vec<char> = Vec::new();
    for c in it: s.chars()
        invariant
            it.seq() == s@,
            r@ == s@.take(it.index()),
    {
        r.push(c);
    }
    assert(s@.take(s@.len() as int) == s@);
    r
}

/// The string made of the characters of `cs`, in order.
pub fn string_of(cs: &[char]) -> (r: String)
    ensures
        r@ == cs@,
{
    let mut r = String::new();
    let mut i: usize = 0;
    while i < cs.len()
        invariant
            i <= cs@.len(),
            r@ == cs@.take(i as int),
        decreases cs@.len() - i,
    {
        r.push(cs[i]);
        i += 1;
    }
    assert(cs@.take(cs@.len() as int) == cs@);
    r
}

/// Whether two strings hold the same characters.
pub fn same(a: &str, b: &str) -> (r: bool)
    ensures
        r == (a@ == b@),
{
    a.to_string() == b.to_string()
}

/// Whether a string has no characters.
pub fn is_blank(s: &str) -> (r: bool)
    ensures
        r == (s@.len() == 0),
{
    chars_of(s).len() == 0
}

/// The characters of each string of a list.
pub open spec fn views(list: Seq<String>) -> Seq<Seq<char>> {
    Seq::new(list.len(), |i: int| list[i]@)
}

/// The characters of a string that may be missing.
pub open spec fn opt_view(s: Option<String>) -> Option<Seq<char>> {
    match s {
        Some(t) => Some(t@),
        None => None,
    }
}

/// One more string at the end is one more view at the end.
pub proof fn lemma_views_push(list: Seq<String>, s: String)
    ensures
        views(list.push(s)) == views(list).push(s@),
{
    assert(views(list.push(s)) =~= views(list).push(s@));
}

// ---------------------------------------------------------------------------
// Finding and cutting
// ---------------------------------------------------------------------------

/// The position of the first `c` in `s`, or the length of `s` without one.
pub open spec fn find(s: Seq<char>, c: char) -> int
    decreases s.len(),
{
    if s.len() == 0 || s[0] == c {
        0
    } else {
        1 + find(s.skip(1), c)
    }
}

/// The position that `find` gives is the one before which `c` does not occur
/// and at which it does, or the end.
pub proof fn lemma_find(s: Seq<char>, c: char)
    ensures
        0 <= find(s, c) <= s.len(),
        forall|j: int| 0 <= j < find(s, c) ==> s[j] != c,
        find(s, c) < s.len() ==> s[find(s, c)] == c,
    decreases s.len(),
{
    if s.len() != 0 && s[0] != c {
        let t = s.skip(1);
        lemma_find(t, c);
        assert forall|j: int| 0 <= j < find(s, c) implies s[j] != c by {
            if j > 0 {
                assert(s[j] == t[j - 1]);
            }
        }
    }
}

/// A position before which `c` does not occur and at which it does (or the
/// end) is the one that `find` gives.
pub proof fn lemma_find_is(s: Seq<char>, c: char, k: int)
    requires
        0 <= k <= s.len(),
        forall|j: int| 0 <= j < k ==> s[j] != c,
        k < s.len() ==> s[k] == c,
    ensures
        find(s, c) == k,
{
    lemma_find(s, c);
}

/// The position of the first `c` in `s`, or the length of `s` without one.
pub fn find_char(s: &[char], c: char) -> (r: usize)
    ensures
        r == find(s@, c),
        r <= s@.len(),
{
    let mut i: usize = 0;
    while i < s.len() && s[i] != c
        invariant
            i <= s@.len(),
            forall|j: int| 0 <= j < i ==> s@[j] != c,
        decreases s@.len() - i,
    {
        i += 1;
    }
    proof {
        lemma_find_is(s@, c, i as int);
    }
    i
}

/// Whether a text holds the character that ends a string of the system.
pub open spec fn has_nul(s: Seq<char>) -> bool {
    s.contains('\0')
}

/// Whether `s` can be passed to the system.
pub fn without_nul(s: &str) -> (r: bool)
    ensures
        r == !has_nul(s@),
{
    let cs: Vec<char> = chars_of(s);
    let k: usize = find_char(cs.as_slice(), '\0');
    proof {
        lemma_find(s@, '\0');
        if has_nul(s@) {
            let i = choose|i: int| 0 <= i < s@.len() && s@[i] == '\0';
            assert(s@[i] == '\0');
        }
    }
    k == cs.len()
}

/// The characters that a trimming removes.
#[derive(Clone, Copy)]
pub enum Edge {
    /// White space.
    White,
    /// One character.
    Only(char),
}

impl Edge {
    pub open spec fn holds(self, c: char) -> bool {
        match self {
            Edge::White => is_space(c),
            Edge::Only(m) => c == m,
        }
    }

    fn test(self, c: char) -> (r: bool)
        ensures
            r == self.holds(c),
    {
        match self {
            Edge::White => space(c),
            Edge::Only(m) => c == m,
        }
    }
}

/// `s` without the characters of `e` at its start.
pub open spec fn trim_start(s: Seq<char>, e: Edge) -> Seq<char>
    decreases s.len(),
{
    if s.len() > 0 && e.holds(s[0]) {
        trim_start(s.skip(1), e)
    } else {
        s
    }
}

/// `s` without the characters of `e` at its end.
pub open spec fn trim_end(s: Seq<char>, e: Edge) -> Seq<char>
    decreases s.len(),
{
    if s.len() > 0 && e.holds(s.last()) {
        trim_end(s.drop_last(), e)
    } else {
        s
    }
}

/// `s` without the characters of `e` at either end.
pub open spec fn trim_edges(s: Seq<char>, e: Edge) -> Seq<char> {
    trim_end(trim_start(s, e), e)
}

/// `s` without white space at either end.
pub open spec fn trim(s: Seq<char>) -> Seq<char> {
    trim_edges(s, Edge::White)
}

proof fn lemma_trim_start(s: Seq<char>, e: Edge, k: int)
    requires
        0 <= k <= s.len(),
        forall|j: int| 0 <= j < k ==> e.holds(s[j]),
        k < s.len() ==> !e.holds(s[k]),
    ensures
        trim_start(s, e) == s.skip(k),
    decreases k,
{
    if k == 0 {
        assert(s.skip(0) =~= s);
    } else {
        let t = s.skip(1);
        assert forall|j: int| 0 <= j < k - 1 implies e.holds(t[j]) by {
            assert(t[j] == s[j + 1]);
        }
        assert(k - 1 < t.len() ==> t[k - 1] == s[k]);
        lemma_trim_start(t, e, k - 1);
        assert(t.skip(k - 1) =~= s.skip(k));
    }
}

proof fn lemma_trim_end(s: Seq<char>, e: Edge, k: int)
    requires
        0 <= k <= s.len(),
        forall|j: int| k <= j < s.len() ==> e.holds(s[j]),
        k > 0 ==> !e.holds(s[k - 1]),
    ensures
        trim_end(s, e) == s.take(k),
    decreases s.len() - k,
{
    if k == s.len() {
        assert(s.take(k) =~= s);
    } else {
        lemma_trim_end(s.drop_last(), e, k);
        assert(s.drop_last().take(k) =~= s.take(k));
    }
}

/// A trimmed text has no white space at either end, and trimming it again
/// changes nothing.
pub proof fn trimming_is_final(s: Seq<char>)
    ensures
        trim(s).len() > 0 ==> !is_space(trim(s)[0]) && !is_space(trim(s).last()),
        trim(trim(s)) == trim(s),
{
    lemma_trim_start_edge(s, Edge::White);
    lemma_trim_end_edge(trim_start(s, Edge::White), Edge::White);
}

proof fn lemma_trim_start_edge(s: Seq<char>, e: Edge)
    ensures
        trim_start(s, e).len() > 0 ==> !e.holds(trim_start(s, e)[0]),
    decreases s.len(),
{
    if s.len() > 0 && e.holds(s[0]) {
        lemma_trim_start_edge(s.skip(1), e);
    }
}

proof fn lemma_trim_end_edge(s: Seq<char>, e: Edge)
    ensures
        trim_end(s, e).len() > 0 ==> !e.holds(trim_end(s, e).last()) && trim_end(s, e)[0] == s[0],
    decreases s.len(),
{
    if s.len() > 0 && e.holds(s.last()) {
        lemma_trim_end_edge(s.drop_last(), e);
    }
}

/// A text with no white space at either end stays as it is.
pub proof fn lemma_trim_nothing(s: Seq<char>)
    requires
        s.len() > 0 ==> !is_space(s[0]) && !is_space(s.last()),
    ensures
        trim(s) == s,
{
}

/// Trimming adds no character.
pub proof fn lemma_trim_adds_nothing(s: Seq<char>, c: char)
    requires
        !s.contains(c),
    ensures
        !trim(s).contains(c),
{
    lemma_trim_start_adds_nothing(s, Edge::White, c);
    lemma_trim_end_adds_nothing(trim_start(s, Edge::White), Edge::White, c);
}

proof fn lemma_trim_start_adds_nothing(s: Seq<char>, e: Edge, c: char)
    requires
        !s.contains(c),
    ensures
        !trim_start(s, e).contains(c),
    decreases s.len(),
{
    if s.len() > 0 && e.holds(s[0]) {
        let t = s.skip(1);
        assert forall|j: int| 0 <= j < t.len() implies t[j] != c by {
            assert(t[j] == s[j + 1]);
        }
        lemma_trim_start_adds_nothing(t, e, c);
    }
}

proof fn lemma_trim_end_adds_nothing(s: Seq<char>, e: Edge, c: char)
    requires
        !s.contains(c),
    ensures
        !trim_end(s, e).contains(c),
    decreases s.len(),
{
    if s.len() > 0 && e.holds(s.last()) {
        let t = s.drop_last();
        assert forall|j: int| 0 <= j < t.len() implies t[j] != c by {
            assert(t[j] == s[j]);
        }
        lemma_trim_end_adds_nothing(t, e, c);
    }
}

/// `s` without the characters of `e` at either end.
pub fn trimmed(s: &[char], e: Edge) -> (r: &[char])
    ensures
        r@ == trim_edges(s@, e),
{
    let mut i: usize = 0;
    while i < s.len() && e.test(s[i])
        invariant
            i <= s@.len(),
            forall|j: int| 0 <= j < i ==> e.holds(s@[j]),
        decreases s@.len() - i,
    {
        i += 1;
    }
    proof {
        lemma_trim_start(s@, e, i as int);
    }
    let mut k: usize = s.len();
    while k > i && e.test(s[k - 1])
        invariant
            i <= k <= s@.len(),
            forall|j: int| k <= j < s@.len() ==> e.holds(s@[j]),
        decreases k,
    {
        k -= 1;
    }
    proof {
        let t = s@.skip(i as int);
        assert forall|j: int| k - i <= j < t.len() implies e.holds(t[j]) by {
            assert(t[j] == s@[j + i]);
        }
        assert(k > i ==> t[k - i - 1] == s@[k - 1]);
        lemma_trim_end(t, e, k - i);
        assert(s@.subrange(i as int, k as int) =~= t.take(k - i));
    }
    slice_subrange(s, i, k)
}

/// `s` without the character `c` at its end.
pub fn trimmed_end(s: &[char], c: char) -> (r: &[char])
    ensures
        r@ == trim_end(s@, Edge::Only(c)),
{
    let mut k: usize = s.len();
    while k > 0 && s[k - 1] == c
        invariant
            k <= s@.len(),
            forall|j: int| k <= j < s@.len() ==> Edge::Only(c).holds(s@[j]),
        decreases k,
    {
        k -= 1;
    }
    proof {
        lemma_trim_end(s@, Edge::Only(c), k as int);
    }
    slice_subrange(s, 0, k)
}

/// Whether `s` starts with `prefix`.
pub open spec fn starts_with(s: Seq<char>, prefix: Seq<char>) -> bool {
    prefix.len() <= s.len() && s.take(prefix.len() as int) == prefix
}

/// Whether `s` starts with `prefix`.
pub fn has_prefix(s: &[char], prefix: &[char]) -> (r: bool)
    ensures
        r == starts_with(s@, prefix@),
{
    if s.len() < prefix.len() {
        return false;
    }
    let mut i: usize = 0;
    while i < prefix.len()
        invariant
            i <= prefix@.len() <= s@.len(),
            forall|j: int| 0 <= j < i ==> s@[j] == prefix@[j],
        decreases prefix@.len() - i,
    {
        if s[i] != prefix[i] {
            assert(s@.take(prefix@.len() as int)[i as int] != prefix@[i as int]);
            return false;
        }
        i += 1;
    }
    assert(s@.take(prefix@.len() as int) =~= prefix@);
    true
}

// ---------------------------------------------------------------------------
// Joining and dividing
// ---------------------------------------------------------------------------

/// `parts`, with `sep` between any two neighbours.
pub open spec fn join(parts: Seq<Seq<char>>, sep: Seq<char>) -> Seq<char>
    decreases parts.len(),
{
    if parts.len() == 0 {
        seq![]
    } else if parts.len() == 1 {
        parts[0]
    } else {
        join(parts.drop_last(), sep) + sep + parts.last()
    }
}

/// `parts`, with `sep` between any two neighbours.
pub fn join_strings(parts: &[String], sep: &str) -> (r: String)
    ensures
        r@ == join(views(parts@), sep@),
{
    let ghost all = views(parts@);
    let mut r = String::new();
    let mut i: usize = 0;
    while i < parts.len()
        invariant
            i <= parts@.len() == all.len(),
            all == views(parts@),
            r@ == join(all.take(i as int), sep@),
        decreases parts@.len() - i,
    {
        proof {
            let longer = all.take(i + 1);
            assert(longer.drop_last() =~= all.take(i as int));
            assert(longer.last() == parts@[i as int]@);
        }
        if i > 0 {
            r.append(sep);
        }
        r.append(parts[i].as_str());
        assert(r@ =~= join(all.take(i + 1), sep@));
        i += 1;
    }
    assert(all.take(i as int) =~= all);
    r
}

/// A line without the carriage return that it ends in.
pub open spec fn without_return(s: Seq<char>) -> Seq<char> {
    if s.len() > 0 && s.last() == '\r' {
        s.drop_last()
    } else {
        s
    }
}

/// The lines of a text. A line ends in a line feed, which may follow a
/// carriage return; the last line may go without.
pub open spec fn lines(s: Seq<char>) -> Seq<Seq<char>>
    decreases s.len(),
    via lines_decreases
{
    let k = find(s, '\n');
    if s.len() == 0 {
        seq![]
    } else if k == s.len() {
        seq![s]
    } else {
        seq![without_return(s.take(k))] + lines(s.skip(k + 1))
    }
}

#[via_fn]
proof fn lines_decreases(s: Seq<char>) {
    lemma_find(s, '\n');
}

/// A copy of a list of characters.
fn copy_chars(s: &[char]) -> (r: Vec<char>)
    ensures
        r@ == s@,
{
    let mut r: Vec<char> = Vec::new();
    let mut i: usize = 0;
    while i < s.len()
        invariant
            i <= s@.len(),
            r@ == s@.take(i as int),
        decreases s@.len() - i,
    {
        r.push(s[i]);
        i += 1;
        assert(r@ =~= s@.take(i as int));
    }
    assert(s@.take(i as int) =~= s@);
    r
}

/// The contents of each list of characters.
pub open spec fn slices(list: Seq<Vec<char>>) -> Seq<Seq<char>> {
    Seq::new(list.len(), |i: int| list[i]@)
}

/// The lines of a text.
pub fn lines_of(s: &[char]) -> (r: Vec<Vec<char>>)
    ensures
        slices(r@) == lines(s@),
{
    let mut r: Vec<Vec<char>> = Vec::new();
    let mut i: usize = 0;
    assert(s@.skip(0) =~= s@);
    assert(slices(r@) + lines(s@) =~= lines(s@));
    while i < s.len()
        invariant
            i <= s@.len(),
            slices(r@) + lines(s@.skip(i as int)) == lines(s@),
        decreases s@.len() - i,
    {
        let ghost before = slices(r@);
        let ghost rest = s@.skip(i as int);
        let tail = slice_subrange(s, i, s.len());
        assert(tail@ =~= rest);
        let k: usize = find_char(tail, '\n');
        let end: usize = if k < tail.len() && k > 0 && tail[k - 1] == '\r' {
            k - 1
        } else {
            k
        };
        let line = copy_chars(slice_subrange(tail, 0, end));
        proof {
            let first = if k < rest.len() {
                without_return(rest.take(k as int))
            } else {
                rest
            };
            assert(line@ =~= first);
            if k < rest.len() {
                assert(rest.skip(k + 1) =~= s@.skip(i + k + 1));
            } else {
                assert(s@.skip(s@.len() as int).len() == 0);
                assert(lines(rest) =~= seq![first] + lines(s@.skip(s@.len() as int)));
            }
        }
        r.push(line);
        assert(slices(r@) =~= before.push(line@));
        if k < tail.len() {
            i = i + k + 1;
        } else {
            i = s.len();
        }
        assert(before + (seq![line@] + lines(s@.skip(i as int))) =~= before.push(line@) + lines(
            s@.skip(i as int),
        ));
    }
    assert(lines(s@.skip(i as int)) =~= seq![]);
    assert(slices(r@) + lines(s@.skip(i as int)) =~= slices(r@));
    r
}

/// No line holds a line feed.
pub proof fn lines_hold_no_line_feed(s: Seq<char>)
    ensures
        forall|i: int| 0 <= i < lines(s).len() ==> !(#[trigger] lines(s)[i]).contains('\n'),
    decreases s.len(),
{
    let k = find(s, '\n');
    lemma_find(s, '\n');
    if s.len() == 0 {
    } else if k == s.len() {
        assert(lines(s)[0] == s);
    } else {
        let rest = lines(s.skip(k + 1));
        lines_hold_no_line_feed(s.skip(k + 1));
        assert forall|i: int| 0 <= i < lines(s).len() implies !(#[trigger] lines(s)[i]).contains(
            '\n',
        ) by {
            if i == 0 {
                let line = without_return(s.take(k));
                assert forall|j: int| 0 <= j < line.len() implies line[j] != '\n' by {
                    assert(line[j] == s[j]);
                }
            } else {
                assert(lines(s)[i] == rest[i - 1]);
            }
        }
    }
}

/// A text that starts with `head` and a line feed has `head` as its first line.
proof fn lemma_first_line(head: Seq<char>, rest: Seq<char>)
    requires
        !head.contains('\n'),
    ensures
        lines(head + "\n"@ + rest) == seq![without_return(head)] + lines(rest),
{
    reveal_strlit("\n");
    let s = head + "\n"@ + rest;
    assert forall|j: int| 0 <= j < head.len() implies s[j] != '\n' by {
        assert(s[j] == head[j]);
        assert(head.contains(head[j]));
    }
    lemma_find_is(s, '\n', head.len() as int);
    assert(s.take(head.len() as int) =~= head);
    assert(s.skip(head.len() as int + 1) =~= rest);
}

/// What is joined can be taken apart from the front.
pub proof fn lemma_join_front(parts: Seq<Seq<char>>, sep: Seq<char>)
    requires
        parts.len() > 1,
    ensures
        join(parts, sep) == parts[0] + sep + join(parts.skip(1), sep),
    decreases parts.len(),
{
    let front = parts.drop_last();
    reveal_with_fuel(join, 2);
    if parts.len() == 2 {
        assert(front.len() == 1 && front[0] == parts[0]);
        assert(parts.skip(1).len() == 1);
    } else {
        lemma_join_front(front, sep);
        assert(front.skip(1) =~= parts.skip(1).drop_last());
        assert(parts.skip(1).last() == parts.last());
        assert(join(parts, sep) =~= parts[0] + sep + join(parts.skip(1), sep));
    }
}

/// Whether `s` can be a line: it holds no line feed, and does not end in a
/// carriage return, which would be taken for part of the line's end.
pub open spec fn is_line(s: Seq<char>) -> bool {
    !s.contains('\n') && (s.len() > 0 ==> s.last() != '\r')
}

/// Lines that are put below one another are the lines of the text, unless the
/// last one is empty.
pub proof fn joining_lines_is_undone(parts: Seq<Seq<char>>)
    requires
        forall|i: int| 0 <= i < parts.len() ==> is_line(#[trigger] parts[i]),
        parts.len() > 0 ==> parts.last().len() > 0,
    ensures
        lines(join(parts, "\n"@)) == parts,
    decreases parts.len(),
{
    if parts.len() == 0 {
        assert(lines(join(parts, "\n"@)) =~= parts);
    } else if parts.len() == 1 {
        let s = parts[0];
        assert(is_line(parts[0]));
        assert forall|j: int| 0 <= j < s.len() implies s[j] != '\n' by {
            assert(s.contains(s[j]));
        }
        lemma_find_is(s, '\n', s.len() as int);
        assert(seq![s] =~= parts);
    } else {
        let rest = parts.skip(1);
        lemma_join_front(parts, "\n"@);
        assert forall|i: int| 0 <= i < rest.len() implies is_line(#[trigger] rest[i]) by {
            assert(rest[i] == parts[i + 1]);
        }
        assert(rest.last() == parts.last());
        joining_lines_is_undone(rest);
        assert(is_line(parts[0]));
        lemma_first_line(parts[0], join(rest, "\n"@));
        assert(seq![parts[0]] + rest =~= parts);
    }
}

/// The number of characters before the first white space.
pub open spec fn word_length(s: Seq<char>) -> int
    decreases s.len(),
{
    if s.len() == 0 || is_space(s[0]) {
        0
    } else {
        1 + word_length(s.skip(1))
    }
}

proof fn lemma_word_length(s: Seq<char>, k: int)
    requires
        0 <= k <= s.len(),
        forall|j: int| 0 <= j < k ==> !is_space(s[j]),
        k < s.len() ==> is_space(s[k]),
    ensures
        word_length(s) == k,
    decreases k,
{
    if k > 0 {
        let t = s.skip(1);
        assert forall|j: int| 0 <= j < k - 1 implies !is_space(t[j]) by {
            assert(t[j] == s[j + 1]);
        }
        assert(k < s.len() ==> t[k - 1] == s[k]);
        lemma_word_length(t, k - 1);
    }
}

/// The first of the words that white space divides a text into.
pub open spec fn first_word(s: Seq<char>) -> Option<Seq<char>> {
    let t = trim_start(s, Edge::White);
    if t.len() == 0 {
        None
    } else {
        Some(t.take(word_length(t)))
    }
}

/// The first of the words that white space divides a text into.
pub fn first_word_of(s: &[char]) -> (r: Option<&[char]>)
    ensures
        match r {
            Some(w) => first_word(s@) == Some(w@),
            None => first_word(s@) is None,
        },
{
    let mut i: usize = 0;
    while i < s.len() && space(s[i])
        invariant
            i <= s@.len(),
            forall|j: int| 0 <= j < i ==> Edge::White.holds(s@[j]),
        decreases s@.len() - i,
    {
        i += 1;
    }
    proof {
        lemma_trim_start(s@, Edge::White, i as int);
    }
    if i == s.len() {
        return None;
    }
    let mut k: usize = i;
    while k < s.len() && !space(s[k])
        invariant
            i <= k <= s@.len(),
            forall|j: int| i <= j < k ==> !is_space(s@[j]),
        decreases s@.len() - k,
    {
        k += 1;
    }
    proof {
        let t = s@.skip(i as int);
        assert forall|j: int| 0 <= j < k - i implies !is_space(t[j]) by {
            assert(t[j] == s@[j + i]);
        }
        assert(k < s@.len() ==> t[k - i] == s@[k as int]);
        lemma_word_length(t, k - i);
        assert(s@.subrange(i as int, k as int) =~= t.take(k - i));
    }
    Some(slice_subrange(s, i, k))
}

// ---------------------------------------------------------------------------
// Letter case and quoting
// ---------------------------------------------------------------------------

/// Whether every character of `s` is an ASCII character.
pub open spec fn all_ascii(s: Seq<char>) -> bool {
    forall|i: int| 0 <= i < s.len() ==> #[trigger] s[i] <= '\u{7f}'
}

/// The small letter for an ASCII capital; any other character as it is.
pub open spec fn ascii_small(c: char) -> char {
    if 'A' <= c <= 'Z' {
        ((c as u32) + 32) as char
    } else {
        c
    }
}

/// What `str::to_lowercase` gives for a text that goes beyond ASCII.
pub uninterp spec fn unicode_lowercase(s: Seq<char>) -> Seq<char>;

/// `s` in small letters.
pub open spec fn lowercase(s: Seq<char>) -> Seq<char> {
    if all_ascii(s) {
        s.map_values(|c: char| ascii_small(c))
    } else {
        unicode_lowercase(s)
    }
}

/// `str::to_lowercase`: the lowercase equivalent of a text, by the Unicode
/// property `Lowercase`. In a text of ASCII characters every capital letter
/// gives way to its small one and nothing else changes; what the tables hold
/// beyond ASCII is named, not written out.
#[verifier::external_body]
pub(crate) fn to_lowercase(s: &str) -> (r: String)
    ensures
        r@ == (if all_ascii(s@) {
            s@.map_values(|c: char| ascii_small(c))
        } else {
            unicode_lowercase(s@)
        }),
{
    s.to_lowercase()
}

/// The ASCII characters that have a glyph, and the blank.
pub open spec fn is_printable(c: char) -> bool {
    ' ' <= c <= '~'
}

/// Whether every character of `s` is a printable ASCII character.
pub open spec fn all_printable(s: Seq<char>) -> bool {
    forall|i: int| 0 <= i < s.len() ==> #[trigger] is_printable(s[i])
}

/// `s` with a backslash before every double quote and every backslash.
pub open spec fn escaped(s: Seq<char>) -> Seq<char>
    decreases s.len(),
{
    if s.len() == 0 {
        seq![]
    } else if s.last() == '"' || s.last() == '\\' {
        escaped(s.drop_last()) + seq!['\\', s.last()]
    } else {
        escaped(s.drop_last()).push(s.last())
    }
}

/// What the `Debug` form of a `str` is for a text that is not all printable
/// ASCII characters.
pub uninterp spec fn debug_text(s: Seq<char>) -> Seq<char>;

/// `s` in double quotes, with what needs it escaped.
pub open spec fn quoted(s: Seq<char>) -> Seq<char> {
    if all_printable(s) {
        seq!['"'] + escaped(s) + seq!['"']
    } else {
        debug_text(s)
    }
}

/// `format!` with the `Debug` form of a `str`: the text in double quotes. Of
/// the printable ASCII characters, exactly the double quote and the backslash
/// are escaped, by a backslash; how others are escaped is named, not written
/// out.
#[verifier::external_body]
pub(crate) fn quote(s: &str) -> (r: String)
    ensures
        r@ == (if all_printable(s@) {
            seq!['"'] + escaped(s@) + seq!['"']
        } else {
            debug_text(s@)
        }),
{
    format!("{:?}", s)
}

// ---------------------------------------------------------------------------
// Laws
// ---------------------------------------------------------------------------

/// What is joined in two parts can be joined at once; a single text stays as it
/// is.
pub proof fn joining_is_associative(a: Seq<Seq<char>>, b: Seq<Seq<char>>, sep: Seq<char>)
    ensures
        a.len() > 0 && b.len() > 0 ==> join(a + b, sep) == join(a, sep) + sep + join(b, sep),
        a.len() == 1 ==> join(a, sep) == a[0],
        join(Seq::<Seq<char>>::empty(), sep).len() == 0,
    decreases b.len(),
{
    if a.len() > 0 && b.len() > 0 {
        let all = a + b;
        let front = b.drop_last();
        assert(all.drop_last() =~= a + front);
        assert(all.last() == b.last());
        if b.len() == 1 {
            assert(a + front =~= a);
        } else {
            joining_is_associative(a, front, sep);
            assert(join(all, sep) =~= join(a, sep) + sep + join(b, sep));
        }
    }
}

/// Trimming takes a stretch at the front and one at the end, each made of
/// nothing but what is to be trimmed, and leaves what is between them.
pub proof fn trimming_takes_only_the_edges(s: Seq<char>, e: Edge) -> (r: (int, int))
    ensures
        0 <= r.0 <= r.1 <= s.len(),
        trim_edges(s, e) == s.subrange(r.0, r.1),
        forall|k: int| 0 <= k < r.0 || r.1 <= k < s.len() ==> e.holds(#[trigger] s[k]),
        r.0 < r.1 ==> !e.holds(s[r.0]) && !e.holds(s[r.1 - 1]),
{
    let i = trimming_the_front_keeps_the_end(s, e);
    let t = s.skip(i);
    let k = trimming_the_end_keeps_the_front(t, e);
    assert(t.take(k) =~= s.subrange(i, i + k));
    assert forall|j: int| 0 <= j < i || i + k <= j < s.len() implies e.holds(#[trigger] s[j]) by {
        if j >= i + k {
            assert(t[j - i] == s[j]);
        }
    }
    if k > 0 {
        assert(t[0] == s[i]);
        assert(t[k - 1] == s[i + k - 1]);
    }
    (i, i + k)
}

/// What is left when the front of a text is trimmed is the rest of it, from the
/// first character on that is not to be trimmed.
pub proof fn trimming_the_front_keeps_the_end(s: Seq<char>, e: Edge) -> (i: int)
    ensures
        0 <= i <= s.len(),
        trim_start(s, e) == s.skip(i),
        forall|k: int| 0 <= k < i ==> e.holds(#[trigger] s[k]),
        i < s.len() ==> !e.holds(s[i]),
    decreases s.len(),
{
    if s.len() > 0 && e.holds(s[0]) {
        let t = s.skip(1);
        let i = trimming_the_front_keeps_the_end(t, e);
        assert(t.skip(i) =~= s.skip(i + 1));
        assert forall|k: int| 0 <= k < i + 1 implies e.holds(#[trigger] s[k]) by {
            if k > 0 {
                assert(t[k - 1] == s[k]);
            }
        }
        assert(i < t.len() ==> t[i] == s[i + 1]);
        i + 1
    } else {
        assert(s.skip(0) =~= s);
        0
    }
}

/// What is left when the end of a text is trimmed is its front, up to the last
/// character that is not to be trimmed.
pub proof fn trimming_the_end_keeps_the_front(s: Seq<char>, e: Edge) -> (k: int)
    ensures
        0 <= k <= s.len(),
        trim_end(s, e) == s.take(k),
        forall|j: int| k <= j < s.len() ==> e.holds(#[trigger] s[j]),
        k > 0 ==> !e.holds(s[k - 1]),
    decreases s.len(),
{
    if s.len() > 0 && e.holds(s.last()) {
        let t = s.drop_last();
        let k = trimming_the_end_keeps_the_front(t, e);
        assert(t.take(k) =~= s.take(k));
        assert forall|j: int| k <= j < s.len() implies e.holds(#[trigger] s[j]) by {
            if j < t.len() {
                assert(t[j] == s[j]);
            }
        }
        k
    } else {
        assert(s.take(s.len() as int) =~= s);
        s.len() as int
    }
}

/// Lines that end in a carriage return and a line feed are the lines of the
/// text; one carriage return belongs to the end of each, and any other to the
/// line.
pub proof fn joining_lines_with_returns_is_undone(parts: Seq<Seq<char>>)
    requires
        forall|i: int| 0 <= i < parts.len() ==> !(#[trigger] parts[i]).contains('\n'),
        parts.len() > 0 ==> parts.last().len() > 0,
    ensures
        lines(join(parts, "\r\n"@)) == parts,
    decreases parts.len(),
{
    reveal_strlit("\r\n");
    reveal_strlit("\n");
    if parts.len() == 0 {
        assert(lines(join(parts, "\r\n"@)) =~= parts);
    } else if parts.len() == 1 {
        let s = parts[0];
        assert(!parts[0].contains('\n'));
        assert forall|j: int| 0 <= j < s.len() implies s[j] != '\n' by {
            assert(s.contains(s[j]));
        }
        lemma_find_is(s, '\n', s.len() as int);
        assert(seq![s] =~= parts);
    } else {
        let rest = parts.skip(1);
        lemma_join_front(parts, "\r\n"@);
        assert forall|i: int| 0 <= i < rest.len() implies !(#[trigger] rest[i]).contains('\n') by {
            assert(rest[i] == parts[i + 1]);
        }
        assert(rest.last() == parts.last());
        joining_lines_with_returns_is_undone(rest);
        assert(!parts[0].contains('\n'));
        let head = parts[0].push('\r');
        assert forall|j: int| 0 <= j < head.len() implies head[j] != '\n' by {
            if j < parts[0].len() {
                assert(parts[0].contains(parts[0][j]));
            }
        }
        let after = join(rest, "\r\n"@);
        assert(parts[0] + "\r\n"@ + after =~= head + "\n"@ + after);
        lemma_first_line(head, after);
        assert(without_return(head) =~= parts[0]);
        assert(seq![parts[0]] + rest =~= parts);
    }
}

/// The first word of a text is what stands between the white space at its front
/// and the next white space.
pub proof fn the_first_word_stands_between_blanks(
    blank: Seq<char>,
    w: Seq<char>,
    rest: Seq<char>,
)
    requires
        forall|i: int| 0 <= i < blank.len() ==> is_space(#[trigger] blank[i]),
        forall|i: int| 0 <= i < w.len() ==> !is_space(#[trigger] w[i]),
        rest.len() > 0 ==> is_space(rest[0]),
    ensures
        w.len() > 0 ==> first_word(blank + w + rest) == Some(w),
        first_word(blank) is None,
{
    let s = blank + w + rest;
    assert forall|j: int| 0 <= j < blank.len() implies Edge::White.holds(blank[j]) by {
        assert(is_space(blank[j]));
    }
    lemma_trim_start(blank, Edge::White, blank.len() as int);
    if w.len() > 0 {
        assert forall|j: int| 0 <= j < blank.len() implies Edge::White.holds(s[j]) by {
            assert(s[j] == blank[j]);
        }
        assert(s[blank.len() as int] == w[0]);
        lemma_trim_start(s, Edge::White, blank.len() as int);
        let t = s.skip(blank.len() as int);
        assert(t =~= w + rest);
        assert forall|j: int| 0 <= j < w.len() implies !is_space(t[j]) by {
            assert(t[j] == w[j]);
        }
        assert(w.len() < t.len() ==> t[w.len() as int] == rest[0]);
        lemma_word_length(t, w.len() as int);
        assert(t.take(w.len() as int) =~= w);
    }
}

/// A text starts with a prefix exactly if it is the prefix with something
/// behind it.
pub proof fn a_prefix_has_something_behind_it(s: Seq<char>, prefix: Seq<char>, rest: Seq<char>)
    ensures
        starts_with(prefix + rest, prefix),
        starts_with(s, prefix) ==> s == prefix + s.skip(prefix.len() as int),
{
    assert((prefix + rest).take(prefix.len() as int) =~= prefix);
    if starts_with(s, prefix) {
        assert(s =~= prefix + s.skip(prefix.len() as int));
    }
}

/// What stands between two stretches that are to be trimmed, and has nothing to
/// be trimmed at its own edges, is what trimming leaves.
pub proof fn trimming_leaves_what_is_between(
    front: Seq<char>,
    s: Seq<char>,
    end: Seq<char>,
    e: Edge,
)
    requires
        forall|i: int| 0 <= i < front.len() ==> e.holds(#[trigger] front[i]),
        forall|i: int| 0 <= i < end.len() ==> e.holds(#[trigger] end[i]),
        s.len() > 0 ==> !e.holds(s[0]) && !e.holds(s.last()),
    ensures
        trim_edges(front + s + end, e) == s,
{
    let all = front + s + end;
    let n = front.len() as int;
    if s.len() > 0 {
        assert forall|j: int| 0 <= j < n implies e.holds(all[j]) by {
            assert(all[j] == front[j]);
        }
        assert(all[n] == s[0]);
        lemma_trim_start(all, e, n);
        let t = all.skip(n);
        assert forall|j: int| s.len() <= j < t.len() implies e.holds(t[j]) by {
            assert(t[j] == end[j - s.len()]);
        }
        assert(t[s.len() - 1] == s.last());
        lemma_trim_end(t, e, s.len() as int);
        assert(t.take(s.len() as int) =~= s);
    } else {
        assert forall|j: int| 0 <= j < all.len() implies e.holds(all[j]) by {
            if j < n {
                assert(all[j] == front[j]);
            } else {
                assert(all[j] == end[j - n]);
            }
        }
        lemma_trim_start(all, e, all.len() as int);
        assert(trim_edges(all, e) =~= s);
    }
}

/// A line goes up to its line feed, and may have a carriage return in front of
/// that, which does not belong to it; what is behind the last line feed is a
/// line only if there is something.
pub proof fn lines_go_up_to_their_line_feeds(head: Seq<char>, rest: Seq<char>)
    requires
        !head.contains('\n'),
    ensures
        !(head.len() > 0 && head.last() == '\r') ==> lines(head + "\n"@ + rest) == seq![head]
            + lines(rest),
        lines(head.push('\r') + "\n"@ + rest) == seq![head] + lines(rest),
        lines(head) == (if head.len() == 0 {
            seq![]
        } else {
            seq![head]
        }),
{
    lemma_first_line(head, rest);
    let returned = head.push('\r');
    assert forall|j: int| 0 <= j < returned.len() implies returned[j] != '\n' by {
        if j < head.len() {
            assert(head.contains(head[j]));
        }
    }
    lemma_first_line(returned, rest);
    assert(without_return(returned) =~= head);
    assert forall|j: int| 0 <= j < head.len() implies head[j] != '\n' by {
        assert(head.contains(head[j]));
    }
    lemma_find_is(head, '\n', head.len() as int);
}

} // verus!

//! Character-level text operations.
//!
//! Mail headers, MIME structure and the IMAP and SMTP dialogues are all read
//! and written as text. Every operation here works on slices of characters and
//! is specified on `Seq<char>`.

use vstd::prelude::*;
use vstd::slice::slice_subrange;

verus! {

// ---------------------------------------------------------------------------
// Strings and characters
// ---------------------------------------------------------------------------

/// `String::push` appends one character.
pub assume_specification[ String::push ](s: &mut String, c: char)
    ensures
        final(s)@ == old(s)@.push(c),
;

/// The characters of `s`.
pub fn chars(s: &str) -> (r: Vec<char>)
    ensures
        r@ == s@,
{
    let mut out: Vec<char> = Vec::new();
    for c in it: s.chars()
        invariant
            it.seq() == s@,
            out@ == s@.take(it.index() as int),
    {
        out.push(c);
    }
    assert(s@.take(s@.len() as int) == s@);
    out
}

/// The string made of `s`.
pub fn string(s: &[char]) -> (r: String)
    ensures
        r@ == s@,
{
    let mut out = String::new();
    let mut i: usize = 0;
    while i < s.len()
        invariant
            i <= s@.len(),
            out@ == s@.take(i as int),
        decreases s@.len() - i,
    {
        out.push(s[i]);
        i = i + 1;
    }
    assert(s@.take(s@.len() as int) == s@);
    out
}

/// A copy of `s`.
pub fn copy(s: &[char]) -> (r: Vec<char>)
    ensures
        r@ == s@,
{
    let mut out: Vec<char> = Vec::new();
    extend(&mut out, s);
    assert(Seq::<char>::empty() + s@ == s@);
    out
}

/// Append `s` to `out`.
pub fn extend(out: &mut Vec<char>, s: &[char])
    ensures
        final(out)@ == old(out)@ + s@,
{
    let mut i: usize = 0;
    while i < s.len()
        invariant
            i <= s@.len(),
            out@ == old(out)@ + s@.take(i as int),
        decreases s@.len() - i,
    {
        out.push(s[i]);
        i = i + 1;
    }
    assert(s@.take(s@.len() as int) == s@);
}

/// Append the text `s` to `out`.
pub fn extend_str(out: &mut Vec<char>, s: &str)
    ensures
        final(out)@ == old(out)@ + s@,
{
    let c = chars(s);
    extend(out, &c);
}

/// Whether `a` and `b` are the same characters.
pub fn same(a: &[char], b: &[char]) -> (r: bool)
    ensures
        r == (a@ == b@),
{
    if a.len() != b.len() {
        return false;
    }
    let mut i: usize = 0;
    while i < a.len()
        invariant
            i <= a@.len(),
            a@.len() == b@.len(),
            forall|k: int| 0 <= k < i ==> a@[k] == b@[k],
        decreases a@.len() - i,
    {
        if a[i] != b[i] {
            return false;
        }
        i = i + 1;
    }
    assert(a@ == b@);
    true
}

/// Whether `s` is the text `t`.
pub fn same_str(s: &[char], t: &str) -> (r: bool)
    ensures
        r == (s@ == t@),
{
    let c = chars(t);
    same(s, &c)
}

// ---------------------------------------------------------------------------
// ASCII case
// ---------------------------------------------------------------------------

/// `c` in lower case if it is an ASCII letter, else `c`.
pub open spec fn lower_char(c: char) -> char {
    if 'A' <= c <= 'Z' {
        (c as u8 + 32) as char
    } else {
        c
    }
}

/// `s` with its ASCII letters in lower case.
pub open spec fn lowered(s: Seq<char>) -> Seq<char> {
    Seq::new(s.len(), |i: int| lower_char(s[i]))
}

/// `s` with its ASCII letters in lower case.
pub fn lower(s: &[char]) -> (r: Vec<char>)
    ensures
        r@ == lowered(s@),
{
    let mut out: Vec<char> = Vec::new();
    let mut i: usize = 0;
    while i < s.len()
        invariant
            i <= s@.len(),
            out@ == lowered(s@).take(i as int),
        decreases s@.len() - i,
    {
        let c = s[i];
        if 'A' <= c && c <= 'Z' {
            out.push((c as u8 + 32) as char);
        } else {
            out.push(c);
        }
        i = i + 1;
    }
    assert(lowered(s@).take(s@.len() as int) == lowered(s@));
    out
}

// ---------------------------------------------------------------------------
// Prefixes and suffixes
// ---------------------------------------------------------------------------

/// Whether `s` starts with `p`.
pub open spec fn begins(s: Seq<char>, p: Seq<char>) -> bool {
    p.len() <= s.len() && s.take(p.len() as int) == p
}

/// Whether `s` starts with `p`.
pub fn starts_with(s: &[char], p: &str) -> (r: bool)
    ensures
        r == begins(s@, p@),
{
    let p = chars(p);
    if p.len() > s.len() {
        return false;
    }
    let head = slice_subrange(s, 0, p.len());
    assert(head@ == s@.take(p@.len() as int));
    same(head, &p)
}

/// What follows `p` in `s`, if `s` starts with it.
pub fn strip_prefix<'a>(s: &'a [char], p: &str) -> (r: Option<&'a [char]>)
    ensures
        r is Some <==> begins(s@, p@),
        r matches Some(rest) ==> rest@ == s@.skip(p@.len() as int),
{
    if starts_with(s, p) {
        let n = chars(p).len();
        Some(slice_subrange(s, n, s.len()))
    } else {
        None
    }
}

// ---------------------------------------------------------------------------
// Trimming
// ---------------------------------------------------------------------------

/// The Unicode `White_Space` property.
pub open spec fn white_space(c: char) -> bool {
    ||| '\u{9}' <= c <= '\u{d}'
    ||| c == ' '
    ||| c == '\u{85}'
    ||| c == '\u{a0}'
    ||| c == '\u{1680}'
    ||| '\u{2000}' <= c <= '\u{200a}'
    ||| c == '\u{2028}'
    ||| c == '\u{2029}'
    ||| c == '\u{202f}'
    ||| c == '\u{205f}'
    ||| c == '\u{3000}'
}

/// Whether `c` has the Unicode `White_Space` property.
pub fn is_white_space(c: char) -> (r: bool)
    ensures
        r == white_space(c),
{
    ('\u{9}' <= c && c <= '\u{d}') || c == ' ' || c == '\u{85}' || c == '\u{a0}' || c == '\u{1680}'
        || ('\u{2000}' <= c && c <= '\u{200a}') || c == '\u{2028}' || c == '\u{2029}'
        || c == '\u{202f}' || c == '\u{205f}' || c == '\u{3000}'
}

/// `s` without its leading white space.
pub open spec fn trimmed_start(s: Seq<char>) -> Seq<char>
    decreases s.len(),
{
    if s.len() > 0 && white_space(s[0]) {
        trimmed_start(s.drop_first())
    } else {
        s
    }
}

/// `s` without its trailing white space.
pub open spec fn trimmed_end(s: Seq<char>) -> Seq<char>
    decreases s.len(),
{
    if s.len() > 0 && white_space(s.last()) {
        trimmed_end(s.drop_last())
    } else {
        s
    }
}

/// `s` without white space at either end.
pub open spec fn trimmed(s: Seq<char>) -> Seq<char> {
    trimmed_end(trimmed_start(s))
}

/// `s` without its leading `c`s.
pub open spec fn without_leading(s: Seq<char>, c: char) -> Seq<char>
    decreases s.len(),
{
    if s.len() > 0 && s[0] == c {
        without_leading(s.drop_first(), c)
    } else {
        s
    }
}

/// `s` without its trailing `c`s.
pub open spec fn without_trailing(s: Seq<char>, c: char) -> Seq<char>
    decreases s.len(),
{
    if s.len() > 0 && s.last() == c {
        without_trailing(s.drop_last(), c)
    } else {
        s
    }
}

/// `s` without `c` at either end.
pub open spec fn without_ends(s: Seq<char>, c: char) -> Seq<char> {
    without_trailing(without_leading(s, c), c)
}

/// `s` from its first white space on.
pub open spec fn after_word(s: Seq<char>) -> Seq<char>
    decreases s.len(),
{
    if s.len() > 0 && !white_space(s[0]) {
        after_word(s.drop_first())
    } else {
        s
    }
}

/// `s` without its leading white space.
pub fn trim_start(s: &[char]) -> (r: &[char])
    ensures
        r@ == trimmed_start(s@),
{
    let mut i: usize = 0;
    assert(s@.skip(0) == s@);
    while i < s.len() && is_white_space(s[i])
        invariant
            i <= s@.len(),
            trimmed_start(s@) == trimmed_start(s@.skip(i as int)),
        decreases s@.len() - i,
    {
        assert(s@.skip(i as int).drop_first() == s@.skip(i + 1));
        i = i + 1;
    }
    slice_subrange(s, i, s.len())
}

/// `s` without its trailing white space.
pub fn trim_end(s: &[char]) -> (r: &[char])
    ensures
        r@ == trimmed_end(s@),
{
    let mut i: usize = s.len();
    assert(s@.take(i as int) == s@);
    while i > 0 && is_white_space(s[i - 1])
        invariant
            i <= s@.len(),
            trimmed_end(s@) == trimmed_end(s@.take(i as int)),
        decreases i,
    {
        assert(s@.take(i as int).drop_last() == s@.take(i - 1));
        i = i - 1;
    }
    slice_subrange(s, 0, i)
}

/// `s` without white space at either end.
pub fn trim(s: &[char]) -> (r: &[char])
    ensures
        r@ == trimmed(s@),
{
    trim_end(trim_start(s))
}

/// `s` without its leading `c`s.
pub fn trim_start_char(s: &[char], c: char) -> (r: &[char])
    ensures
        r@ == without_leading(s@, c),
{
    let mut i: usize = 0;
    assert(s@.skip(0) == s@);
    while i < s.len() && s[i] == c
        invariant
            i <= s@.len(),
            without_leading(s@, c) == without_leading(s@.skip(i as int), c),
        decreases s@.len() - i,
    {
        assert(s@.skip(i as int).drop_first() == s@.skip(i + 1));
        i = i + 1;
    }
    slice_subrange(s, i, s.len())
}

/// `s` without `c` at either end.
pub fn trim_char(s: &[char], c: char) -> (r: &[char])
    ensures
        r@ == without_ends(s@, c),
{
    let s = trim_start_char(s, c);
    let mut i: usize = s.len();
    assert(s@.take(i as int) == s@);
    while i > 0 && s[i - 1] == c
        invariant
            i <= s@.len(),
            without_trailing(s@, c) == without_trailing(s@.take(i as int), c),
        decreases i,
    {
        assert(s@.take(i as int).drop_last() == s@.take(i - 1));
        i = i - 1;
    }
    slice_subrange(s, 0, i)
}

/// `s` without any of its white space.
pub open spec fn compacted(s: Seq<char>) -> Seq<char>
    decreases s.len(),
{
    if s.len() == 0 {
        s
    } else if white_space(s.last()) {
        compacted(s.drop_last())
    } else {
        compacted(s.drop_last()).push(s.last())
    }
}

/// `s` without any of its white space.
pub fn compact(s: &[char]) -> (r: Vec<char>)
    ensures
        r@ == compacted(s@),
{
    let mut out: Vec<char> = Vec::new();
    let mut i: usize = 0;
    while i < s.len()
        invariant
            i <= s@.len(),
            out@ == compacted(s@.take(i as int)),
        decreases s@.len() - i,
    {
        assert(s@.take(i + 1).drop_last() == s@.take(i as int));
        if !is_white_space(s[i]) {
            out.push(s[i]);
        }
        i = i + 1;
    }
    assert(s@.take(s@.len() as int) == s@);
    out
}

// ---------------------------------------------------------------------------
// Searching and splitting
// ---------------------------------------------------------------------------

/// Whether `p` stands in `s` at position `i`.
pub open spec fn occurs_at(s: Seq<char>, p: Seq<char>, i: int) -> bool {
    0 <= i && i + p.len() <= s.len() && s.subrange(i, i + p.len()) == p
}

/// The first position at or after `i` where `p` stands in `s`.
pub open spec fn first_from(s: Seq<char>, p: Seq<char>, i: int) -> Option<int>
    decreases s.len() + 1 - i,
{
    if i + p.len() > s.len() {
        None
    } else if occurs_at(s, p, i) {
        Some(i)
    } else {
        first_from(s, p, i + 1)
    }
}

/// The first position where `p` stands in `s`.
pub open spec fn first_in(s: Seq<char>, p: Seq<char>) -> Option<int> {
    first_from(s, p, 0)
}

/// The last position of `c` in `s`.
pub open spec fn last_index(s: Seq<char>, c: char) -> Option<int>
    decreases s.len(),
{
    if s.len() == 0 {
        None
    } else if s.last() == c {
        Some(s.len() - 1)
    } else {
        last_index(s.drop_last(), c)
    }
}

/// Where `first_from` finds something, it is in bounds, it is an occurrence,
/// and there is none before it; where it finds nothing, there is none.
pub proof fn lemma_first_from(s: Seq<char>, p: Seq<char>, i: int)
    requires
        0 <= i,
    ensures
        match first_from(s, p, i) {
            Some(k) => i <= k && occurs_at(s, p, k) && forall|j: int|
                i <= j < k ==> !occurs_at(s, p, j),
            None => forall|j: int| i <= j ==> !occurs_at(s, p, j),
        },
    decreases s.len() + 1 - i,
{
    if i + p.len() <= s.len() && !occurs_at(s, p, i) {
        lemma_first_from(s, p, i + 1);
    }
}

/// The first position where `p` stands in `s`.
pub fn find(s: &[char], p: &[char]) -> (r: Option<usize>)
    ensures
        match r {
            Some(k) => first_in(s@, p@) == Some(k as int) && k + p@.len() <= s@.len(),
            None => first_in(s@, p@) is None,
        },
{
    let mut i: usize = 0;
    while p.len() <= s.len() - i
        invariant
            i <= s@.len(),
            first_in(s@, p@) == first_from(s@, p@, i as int),
        decreases s@.len() - i,
    {
        if same(slice_subrange(s, i, i + p.len()), p) {
            return Some(i);
        }
        assert(p@.len() == 0 ==> s@.subrange(i as int, i as int) == p@);
        i = i + 1;
    }
    None
}

/// The first position where the text `p` stands in `s`.
pub fn find_str(s: &[char], p: &str) -> (r: Option<usize>)
    ensures
        match r {
            Some(k) => first_in(s@, p@) == Some(k as int) && k + p@.len() <= s@.len(),
            None => first_in(s@, p@) is None,
        },
{
    let p = chars(p);
    find(s, &p)
}

/// The last position of `c` in `s`.
pub fn rfind_char(s: &[char], c: char) -> (r: Option<usize>)
    ensures
        match r {
            Some(k) => last_index(s@, c) == Some(k as int) && k < s@.len(),
            None => last_index(s@, c) is None,
        },
{
    let mut i: usize = s.len();
    assert(s@.take(i as int) == s@);
    while i > 0
        invariant
            i <= s@.len(),
            last_index(s@, c) == last_index(s@.take(i as int), c),
        decreases i,
    {
        if s[i - 1] == c {
            return Some(i - 1);
        }
        assert(s@.take(i as int).drop_last() == s@.take(i - 1));
        i = i - 1;
    }
    None
}

/// The views of a list of texts.
pub open spec fn views(v: Seq<Vec<char>>) -> Seq<Seq<char>> {
    Seq::new(v.len(), |i: int| v[i]@)
}

/// The pieces of `s` between the occurrences of `p`, left to right.
pub open spec fn pieces(s: Seq<char>, p: Seq<char>) -> Seq<Seq<char>>
    decreases s.len(),
{
    match first_in(s, p) {
        Some(i) => if 0 <= i && 0 < p.len() && i + p.len() <= s.len() {
            seq![s.take(i)] + pieces(s.skip(i + p.len()), p)
        } else {
            seq![s]
        },
        None => seq![s],
    }
}

/// The pieces of `s` between the occurrences of `p`.
pub fn split(s: &[char], p: &[char]) -> (r: Vec<Vec<char>>)
    requires
        p@.len() > 0,
    ensures
        views(r@) == pieces(s@, p@),
{
    let mut out: Vec<Vec<char>> = Vec::new();
    let mut start: usize = 0;
    assert(s@.skip(0) == s@);
    assert(views(out@) + pieces(s@, p@) == pieces(s@, p@));
    loop
        invariant
            start <= s@.len(),
            p@.len() > 0,
            views(out@) + pieces(s@.skip(start as int), p@) == pieces(s@, p@),
        decreases s@.len() - start,
    {
        let rest = slice_subrange(s, start, s.len());
        assert(rest@ == s@.skip(start as int));
        match find(rest, p) {
            Some(i) => {
                let piece = copy(slice_subrange(rest, 0, i));
                assert(piece@ == rest@.take(i as int));
                let ghost before = out@;
                out.push(piece);
                assert(views(out@) == views(before).push(piece@));
                assert(rest@.skip(i + p@.len()) == s@.skip(start + i + p@.len()));
                assert(views(out@) + pieces(rest@.skip(i + p@.len()), p@) == views(before) + (
                seq![piece@] + pieces(rest@.skip(i + p@.len()), p@)));
                start = start + i + p.len();
            },
            None => {
                let piece = copy(rest);
                let ghost before = out@;
                out.push(piece);
                assert(views(out@) == views(before) + seq![piece@]);
                return out;
            },
        }
    }
}

/// The pieces of `s` between its `c`s.
pub fn split_char(s: &[char], c: char) -> (r: Vec<Vec<char>>)
    ensures
        views(r@) == pieces(s@, seq![c]),
{
    let mut p: Vec<char> = Vec::new();
    p.push(c);
    assert(p@ == seq![c]);
    split(s, &p)
}

/// `s` without one carriage return at its end.
pub open spec fn without_cr(s: Seq<char>) -> Seq<char> {
    if s.len() > 0 && s.last() == '\r' {
        s.drop_last()
    } else {
        s
    }
}

/// The lines of `s`: each ends at a line feed, which it does not hold, nor a
/// carriage return just before it. What follows the last line feed is a line
/// if it is not empty.
pub open spec fn line_seq(s: Seq<char>) -> Seq<Seq<char>>
    decreases s.len(),
{
    if s.len() == 0 {
        seq![]
    } else {
        match first_in(s, seq!['\n']) {
            Some(i) => if 0 <= i < s.len() {
                seq![without_cr(s.take(i))] + line_seq(s.skip(i + 1))
            } else {
                seq![s]
            },
            None => seq![s],
        }
    }
}

/// The lines of `s`.
pub fn lines(s: &[char]) -> (r: Vec<Vec<char>>)
    ensures
        views(r@) == line_seq(s@),
{
    let mut out: Vec<Vec<char>> = Vec::new();
    let mut feed: Vec<char> = Vec::new();
    feed.push('\n');
    assert(feed@ == seq!['\n']);
    let mut start: usize = 0;
    assert(s@.skip(0) == s@);
    assert(views(out@) + line_seq(s@) == line_seq(s@));
    while start < s.len()
        invariant
            start <= s@.len(),
            feed@ == seq!['\n'],
            views(out@) + line_seq(s@.skip(start as int)) == line_seq(s@),
        decreases s@.len() - start,
    {
        let rest = slice_subrange(s, start, s.len());
        assert(rest@ == s@.skip(start as int));
        match find(rest, &feed) {
            Some(i) => {
                let end = if i > 0 && rest[i - 1] == '\r' {
                    i - 1
                } else {
                    i
                };
                let piece = copy(slice_subrange(rest, 0, end));
                assert(piece@ == without_cr(rest@.take(i as int)));
                let ghost before = out@;
                out.push(piece);
                assert(views(out@) == views(before).push(piece@));
                assert(rest@.skip(i + 1) == s@.skip(start + i + 1));
                assert(views(out@) + line_seq(rest@.skip(i + 1)) == views(before) + (seq![piece@]
                    + line_seq(rest@.skip(i + 1))));
                start = start + i + 1;
            },
            None => {
                let piece = copy(rest);
                let ghost before = out@;
                out.push(piece);
                assert(views(out@) == views(before) + seq![piece@]);
                return out;
            },
        }
    }
    assert(s@.skip(start as int).len() == 0);
    assert(views(out@) + line_seq(s@.skip(start as int)) == views(out@));
    out
}

/// Trimming makes a text no longer, and what is left starts with no white
/// space.
pub proof fn lemma_trimmed_start_len(s: Seq<char>)
    ensures
        trimmed_start(s).len() <= s.len(),
        trimmed_start(s).len() > 0 ==> !white_space(trimmed_start(s)[0]),
    decreases s.len(),
{
    if s.len() > 0 && white_space(s[0]) {
        lemma_trimmed_start_len(s.drop_first());
    }
}

/// Trimming makes a text no longer.
pub proof fn lemma_trimmed_end_len(s: Seq<char>)
    ensures
        trimmed_end(s).len() <= s.len(),
    decreases s.len(),
{
    if s.len() > 0 && white_space(s.last()) {
        lemma_trimmed_end_len(s.drop_last());
    }
}

/// Dropping characters makes a text no longer.
pub proof fn lemma_without_leading_len(s: Seq<char>, c: char)
    ensures
        without_leading(s, c).len() <= s.len(),
    decreases s.len(),
{
    if s.len() > 0 && s[0] == c {
        lemma_without_leading_len(s.drop_first(), c);
    }
}

/// What follows a word is shorter than the text.
pub proof fn lemma_after_word_len(s: Seq<char>)
    ensures
        after_word(s).len() <= s.len(),
        s.len() > 0 && !white_space(s[0]) ==> after_word(s).len() < s.len(),
    decreases s.len(),
{
    if s.len() > 0 && !white_space(s[0]) {
        lemma_after_word_len(s.drop_first());
    }
}

/// The words of `s`: its maximal runs without white space.
pub open spec fn word_seq(s: Seq<char>) -> Seq<Seq<char>>
    decreases s.len(),
{
    let t = trimmed_start(s);
    let rest = after_word(t);
    if t.len() == 0 {
        seq![]
    } else {
        proof {
            lemma_trimmed_start_len(s);
            lemma_after_word_len(t);
        }
        seq![t.take(t.len() - rest.len())] + word_seq(rest)
    }
}

/// The words of `s`.
pub fn words(s: &[char]) -> (r: Vec<Vec<char>>)
    ensures
        views(r@) == word_seq(s@),
{
    let mut out: Vec<Vec<char>> = Vec::new();
    let mut rest: &[char] = s;
    assert(views(out@) + word_seq(s@) == word_seq(s@));
    loop
        invariant
            views(out@) + word_seq(rest@) == word_seq(s@),
        decreases rest@.len(),
    {
        let t = trim_start(rest);
        proof {
            lemma_trimmed_start_len(rest@);
            lemma_after_word_len(t@);
        }
        if t.len() == 0 {
            assert(views(out@) + word_seq(rest@) == views(out@));
            return out;
        }
        let mut i: usize = 0;
        assert(t@.skip(0) == t@);
        while i < t.len() && !is_white_space(t[i])
            invariant
                i <= t@.len(),
                after_word(t@) == after_word(t@.skip(i as int)),
            decreases t@.len() - i,
        {
            assert(t@.skip(i as int).drop_first() == t@.skip(i + 1));
            i = i + 1;
        }
        assert(after_word(t@) == t@.skip(i as int));
        let word = copy(slice_subrange(t, 0, i));
        assert(word@ == t@.take(t@.len() - after_word(t@).len()));
        let ghost before = out@;
        out.push(word);
        assert(views(out@) == views(before).push(word@));
        assert(views(out@) + word_seq(after_word(t@)) == views(before) + (seq![word@] + word_seq(
            after_word(t@),
        )));
        rest = slice_subrange(t, i, t.len());
    }
}

// ---------------------------------------------------------------------------
// Joining
// ---------------------------------------------------------------------------

/// `parts` one after another, with `sep` between each two.
pub open spec fn joined(parts: Seq<Seq<char>>, sep: Seq<char>) -> Seq<char>
    decreases parts.len(),
{
    if parts.len() == 0 {
        seq![]
    } else if parts.len() == 1 {
        parts[0]
    } else {
        joined(parts.drop_last(), sep) + sep + parts.last()
    }
}

/// The views of a list of strings.
pub open spec fn string_views(v: Seq<String>) -> Seq<Seq<char>> {
    Seq::new(v.len(), |i: int| v[i]@)
}

/// `parts` one after another, with `sep` between each two.
pub fn join(parts: &Vec<Vec<char>>, sep: &str) -> (r: Vec<char>)
    ensures
        r@ == joined(views(parts@), sep@),
{
    let mut out: Vec<char> = Vec::new();
    let mut i: usize = 0;
    assert(views(parts@).take(0).len() == 0);
    while i < parts.len()
        invariant
            i <= parts@.len(),
            out@ == joined(views(parts@).take(i as int), sep@),
        decreases parts@.len() - i,
    {
        assert(views(parts@).take(i + 1).drop_last() == views(parts@).take(i as int));
        if i > 0 {
            extend_str(&mut out, sep);
        }
        extend(&mut out, &parts[i]);
        i = i + 1;
    }
    assert(views(parts@).take(parts@.len() as int) == views(parts@));
    out
}

/// The views of a list of texts.
pub open spec fn str_views(v: Seq<&str>) -> Seq<Seq<char>> {
    Seq::new(v.len(), |i: int| v[i]@)
}

/// The strings of a list as texts.
pub fn refs(v: &Vec<String>) -> (r: Vec<&str>)
    ensures
        str_views(r@) == string_views(v@),
{
    let mut out: Vec<&str> = Vec::new();
    let mut i: usize = 0;
    while i < v.len()
        invariant
            i <= v@.len(),
            out@.len() == i,
            forall|k: int| 0 <= k < i ==> (#[trigger] out@[k])@ == v@[k]@,
        decreases v@.len() - i,
    {
        out.push(v[i].as_str());
        i = i + 1;
    }
    assert(str_views(out@) == string_views(v@));
    out
}

/// The texts of a list as strings.
pub fn owned(v: &[&str]) -> (r: Vec<String>)
    ensures
        string_views(r@) == str_views(v@),
{
    let mut out: Vec<String> = Vec::new();
    let mut i: usize = 0;
    while i < v.len()
        invariant
            i <= v@.len(),
            out@.len() == i,
            forall|k: int| 0 <= k < i ==> (#[trigger] out@[k])@ == v@[k]@,
        decreases v@.len() - i,
    {
        out.push(v[i].to_owned());
        i = i + 1;
    }
    assert(string_views(out@) == str_views(v@));
    out
}

/// The texts of a list of strings.
pub fn char_lists(v: &Vec<String>) -> (r: Vec<Vec<char>>)
    ensures
        views(r@) == string_views(v@),
{
    let mut out: Vec<Vec<char>> = Vec::new();
    let mut i: usize = 0;
    while i < v.len()
        invariant
            i <= v@.len(),
            out@.len() == i,
            forall|k: int| 0 <= k < i ==> (#[trigger] out@[k])@ == v@[k]@,
        decreases v@.len() - i,
    {
        out.push(chars(v[i].as_str()));
        i = i + 1;
    }
    assert(views(out@) == string_views(v@));
    out
}

// ---------------------------------------------------------------------------
// Numbers
// ---------------------------------------------------------------------------

/// The decimal digit `d`.
pub open spec fn digit_char(d: nat) -> char
    recommends
        d < 10,
{
    (48 + d) as char
}

/// `n` in decimal.
pub open spec fn decimal(n: nat) -> Seq<char>
    decreases n,
{
    if n < 10 {
        seq![digit_char(n)]
    } else {
        decimal(n / 10).push(digit_char(n % 10))
    }
}

/// `n` in decimal.
pub fn to_decimal(n: u64) -> (r: Vec<char>)
    ensures
        r@ == decimal(n as nat),
    decreases n,
{
    let mut out: Vec<char> = if n < 10 {
        Vec::new()
    } else {
        to_decimal(n / 10)
    };
    out.push((48 + (n % 10) as u8) as char);
    assert(out@ == decimal(n as nat));
    out
}

/// Whether `c` is an ASCII digit.
pub open spec fn is_digit(c: char) -> bool {
    '0' <= c <= '9'
}

/// Whether `s` is made of ASCII digits.
pub open spec fn all_digits(s: Seq<char>) -> bool {
    forall|i: int| 0 <= i < s.len() ==> is_digit(#[trigger] s[i])
}

/// The number that the digits `s` write.
pub open spec fn digits_value(s: Seq<char>) -> nat
    decreases s.len(),
{
    if s.len() == 0 {
        0
    } else {
        digits_value(s.drop_last()) * 10 + (s.last() as nat - '0' as nat) as nat
    }
}

/// `s` without one leading plus sign.
pub open spec fn unsigned_part(s: Seq<char>) -> Seq<char> {
    if s.len() > 0 && s[0] == '+' {
        s.drop_first()
    } else {
        s
    }
}

/// The number `s` writes: an optional `+`, then one or more digits.
pub open spec fn number_value(s: Seq<char>) -> Option<nat> {
    let d = unsigned_part(s);
    if d.len() > 0 && all_digits(d) {
        Some(digits_value(d))
    } else {
        None
    }
}

/// The first digits of a number write no greater one.
pub proof fn lemma_digits_value_grows(s: Seq<char>, i: int)
    requires
        0 <= i <= s.len(),
        all_digits(s),
    ensures
        digits_value(s.take(i)) <= digits_value(s),
    decreases s.len() - i,
{
    if i == s.len() {
        assert(s.take(i) == s);
    } else {
        assert(s.take(i + 1).drop_last() == s.take(i));
        lemma_digits_value_grows(s, i + 1);
    }
}

/// The number `s` writes, if it is at most `max`.
pub fn parse_number(s: &[char], max: u64) -> (r: Option<u64>)
    requires
        max <= u32::MAX,
    ensures
        match number_value(s@) {
            Some(v) => if v <= max {
                r == Some(v as u64)
            } else {
                r is None
            },
            None => r is None,
        },
{
    let start: usize = if s.len() > 0 && s[0] == '+' {
        1
    } else {
        0
    };
    let d = slice_subrange(s, start, s.len());
    assert(d@ == unsigned_part(s@));
    if d.len() == 0 {
        return None;
    }
    let mut value: u64 = 0;
    let mut i: usize = 0;
    while i < d.len()
        invariant
            i <= d@.len(),
            max <= u32::MAX,
            value <= max,
            value == digits_value(d@.take(i as int)),
            all_digits(d@.take(i as int)),
            d@ == unsigned_part(s@),
        decreases d@.len() - i,
    {
        let c = d[i];
        assert(d@.take(i + 1).drop_last() == d@.take(i as int));
        if !('0' <= c && c <= '9') {
            return None;
        }
        value = value * 10 + (c as u8 - 48) as u64;
        assert(value == digits_value(d@.take(i + 1)));
        if value > max {
            proof {
                if all_digits(d@) {
                    lemma_digits_value_grows(d@, i + 1);
                }
            }
            return None;
        }
        assert(all_digits(d@.take(i + 1))) by {
            assert forall|k: int| 0 <= k < i + 1 implies is_digit(#[trigger] d@.take(i + 1)[k]) by {
                if k < i {
                    assert(d@.take(i + 1)[k] == d@.take(i as int)[k]);
                }
            }
        }
        i = i + 1;
    }
    assert(d@.take(d@.len() as int) == d@);
    Some(value)
}

/// Writing a number in decimal and reading it back gives the number.
pub proof fn lemma_decimal_reads_back(n: nat)
    ensures
        decimal(n).len() > 0,
        all_digits(decimal(n)),
        digits_value(decimal(n)) == n,
        number_value(decimal(n)) == Some(n),
    decreases n,
{
    if n < 10 {
        assert(decimal(n).drop_last() == Seq::<char>::empty());
        assert(decimal(n).last() == digit_char(n));
        assert(digits_value(Seq::<char>::empty()) == 0);
    } else {
        lemma_decimal_reads_back(n / 10);
        assert(decimal(n).drop_last() == decimal(n / 10));
        assert(is_digit(digit_char(n % 10)));
    }
    assert(is_digit(decimal(n)[0]));
}

// ---------------------------------------------------------------------------
// Laws
// ---------------------------------------------------------------------------

/// The characters that are white space, by their numbers in Unicode.
pub proof fn law_white_space_is_that_of_unicode(c: char)
    ensures
        ({
            let n = c as u32;
            white_space(c) <==> (n == 0x9 || n == 0xa || n == 0xb || n == 0xc || n == 0xd || n == 0x20
                || n == 0x85 || n == 0xa0 || n == 0x1680 || 0x2000 <= n <= 0x200a || n == 0x2028 || n
                == 0x2029 || n == 0x202f || n == 0x205f || n == 0x3000)
        }),
{
}

/// Whether `s` is white space alone.
pub open spec fn is_blank(s: Seq<char>) -> bool {
    forall|i: int| 0 <= i < s.len() ==> white_space(#[trigger] s[i])
}

/// Trimming takes away the white space around a text, all of it and nothing
/// else.
pub proof fn law_trimming_takes_the_blanks_around_a_text(
    before: Seq<char>,
    t: Seq<char>,
    after: Seq<char>,
)
    requires
        is_blank(before),
        is_blank(after),
    ensures
        t.len() == 0 || !white_space(t[0]) ==> trimmed_start(before + t) == t,
        t.len() == 0 || !white_space(t.last()) ==> trimmed_end(t + after) == t,
        t.len() == 0 || (!white_space(t[0]) && !white_space(t.last())) ==> trimmed(
            before + t + after,
        ) == t,
    decreases before.len() + after.len(),
{
    if before.len() > 0 {
        let less = before.drop_first();
        assert forall|i: int| 0 <= i < less.len() implies white_space(#[trigger] less[i]) by {
            assert(less[i] == before[i + 1]);
        }
        law_trimming_takes_the_blanks_around_a_text(less, t, after);
        assert(white_space(before[0]));
        assert((before + t).drop_first() == less + t);
        assert((before + t + after).drop_first() == less + t + after);
    } else if after.len() > 0 {
        let less = after.drop_last();
        assert forall|i: int| 0 <= i < less.len() implies white_space(#[trigger] less[i]) by {
            assert(less[i] == after[i]);
        }
        law_trimming_takes_the_blanks_around_a_text(before, t, less);
        assert(white_space(after[after.len() - 1]));
        assert((t + after).drop_last() == t + less);
        assert(before + t == t);
        assert(before + t + after == t + after);
        assert(before + t + less == t + less);
        if t.len() > 0 {
            assert((t + after)[0] == t[0]);
            assert((t + less)[0] == t[0]);
        } else {
            assert(t + after == after);
            assert(t + less == less);
            assert(trimmed_start(after) == t) by {
                lemma_blank_is_trimmed_away(after);
            }
            assert(trimmed_end(t) == t);
        }
    } else {
        assert(before + t == t);
        assert(t + after == t);
        assert(before + t + after == t);
    }
}

proof fn lemma_blank_is_trimmed_away(s: Seq<char>)
    requires
        is_blank(s),
    ensures
        trimmed_start(s) == Seq::<char>::empty(),
    decreases s.len(),
{
    if s.len() > 0 {
        assert(white_space(s[0]));
        let less = s.drop_first();
        assert forall|i: int| 0 <= i < less.len() implies white_space(#[trigger] less[i]) by {
            assert(less[i] == s[i + 1]);
        }
        lemma_blank_is_trimmed_away(less);
    }
}

/// Lower case leaves a text as long as it is and changes the letters from `A`
/// to `Z` alone, each to its small letter.
pub proof fn law_lower_case_is_letter_by_letter(s: Seq<char>, i: int)
    requires
        0 <= i < s.len(),
    ensures
        lowered(s).len() == s.len(),
        65 <= s[i] as u32 <= 90 ==> lowered(s)[i] as u32 == s[i] as u32 + 32,
        !(65 <= s[i] as u32 <= 90) ==> lowered(s)[i] == s[i],
{
}

/// A text starts with `p` exactly where it is `p` and something more.
pub proof fn law_a_prefix_and_the_rest(s: Seq<char>, p: Seq<char>, rest: Seq<char>)
    ensures
        begins(p + rest, p),
        (p + rest).skip(p.len() as int) == rest,
        begins(s, p) ==> s == p + s.skip(p.len() as int),
{
    assert((p + rest).take(p.len() as int) == p);
    assert((p + rest).skip(p.len() as int) == rest);
    if begins(s, p) {
        assert(s.take(p.len() as int) + s.skip(p.len() as int) == s);
    }
}

/// Taking `c` away from both ends of a text takes all of it that stands there,
/// and nothing else.
pub proof fn law_ends_are_taken_away(c: char, before: nat, t: Seq<char>, after: nat)
    requires
        t.len() > 0,
        t[0] != c,
        t.last() != c,
    ensures
        without_leading(Seq::new(before, |i: int| c) + t, c) == t,
        without_ends(Seq::new(before, |i: int| c) + t + Seq::new(after, |i: int| c), c) == t,
    decreases before + after,
{
    let a = Seq::new(before, |i: int| c);
    let b = Seq::new(after, |i: int| c);
    if before > 0 {
        law_ends_are_taken_away(c, (before - 1) as nat, t, after);
        let less = Seq::new((before - 1) as nat, |i: int| c);
        assert(a.drop_first() == less);
        assert((a + t).drop_first() == less + t);
        assert((a + t + b).drop_first() == less + t + b);
    } else if after > 0 {
        law_ends_are_taken_away(c, before, t, (after - 1) as nat);
        let less = Seq::new((after - 1) as nat, |i: int| c);
        assert(b.drop_last() == less);
        assert(a + t == t);
        assert(a + t + b == t + b);
        assert(a + t + less == t + less);
        assert((t + b)[0] == t[0] && (t + less)[0] == t[0]);
        assert((t + b).drop_last() == t + less);
    } else {
        assert(a + t == t);
        assert(a + t + b == t);
    }
}

/// Compacting takes the white space out of a text, character by character, and
/// nothing else.
pub proof fn law_compacting_takes_the_blanks_out(a: Seq<char>, c: char, b: Seq<char>)
    ensures
        white_space(c) ==> compacted(a + seq![c] + b) == compacted(a + b),
        !white_space(c) ==> compacted(a + seq![c] + b) == compacted(a) + seq![c] + compacted(b),
        compacted(Seq::<char>::empty()) == Seq::<char>::empty(),
    decreases b.len(),
{
    let s = a + seq![c] + b;
    if b.len() == 0 {
        assert(s.drop_last() == a);
        assert(s.last() == c);
        assert(a + b == a);
        assert(compacted(b) == Seq::<char>::empty());
        assert(compacted(a).push(c) == compacted(a) + seq![c] + compacted(b));
    } else {
        let less = b.drop_last();
        law_compacting_takes_the_blanks_out(a, c, less);
        assert(s.drop_last() == a + seq![c] + less);
        assert((a + b).drop_last() == a + less);
        assert(s.last() == b.last() && (a + b).last() == b.last());
    }
}

/// Joining puts the separator between each two parts and nowhere else: one
/// part is itself, and two lists joined are the one, the separator and the
/// other.
pub proof fn law_joining_puts_separators_between(a: Seq<Seq<char>>, b: Seq<Seq<char>>, sep: Seq<char>)
    ensures
        joined(Seq::<Seq<char>>::empty(), sep) == Seq::<char>::empty(),
        a.len() == 1 ==> joined(a, sep) == a[0],
        a.len() > 0 && b.len() > 0 ==> joined(a + b, sep) == joined(a, sep) + sep + joined(b, sep),
    decreases b.len(),
{
    if a.len() > 0 && b.len() > 0 {
        assert((a + b).last() == b.last());
        assert((a + b).drop_last() == a + b.drop_last());
        if b.len() == 1 {
            assert(a + b.drop_last() == a);
        } else {
            law_joining_puts_separators_between(a, b.drop_last(), sep);
            assert(joined(a, sep) + sep + joined(b.drop_last(), sep) + sep + b.last() == joined(
                a,
                sep,
            ) + sep + (joined(b.drop_last(), sep) + sep + b.last()));
        }
    }
}

/// Splitting loses nothing but the separators, and leaves none of them in a
/// piece: the pieces joined by the separator are the text.
pub proof fn law_pieces_join_back(s: Seq<char>, p: Seq<char>)
    requires
        p.len() > 0,
    ensures
        pieces(s, p).len() > 0,
        joined(pieces(s, p), p) == s,
        forall|i: int| 0 <= i < pieces(s, p).len() ==> first_in(#[trigger] pieces(s, p)[i], p) is None,
    decreases s.len(),
{
    lemma_first_from(s, p, 0);
    let all = pieces(s, p);
    match first_in(s, p) {
        Some(at) => {
            let rest = s.skip(at + p.len());
            law_pieces_join_back(rest, p);
            let head = s.take(at);
            law_joining_puts_separators_between(seq![head], pieces(rest, p), p);
            assert(s.subrange(at, at + p.len()) == p);
            assert(s == head + p + rest);
            assert forall|i: int| 0 <= i < all.len() implies first_in(
                #[trigger] all[i],
                p,
            ) is None by {
                if i == 0 {
                    lemma_first_from(head, p, 0);
                    if let Some(k) = first_in(head, p) {
                        assert(s.subrange(k, k + p.len()) == head.subrange(k, k + p.len()));
                        assert(occurs_at(s, p, k));
                    }
                } else {
                    assert(all[i] == pieces(rest, p)[i - 1]);
                }
            }
        },
        None => {
            assert(all == seq![s]);
        },
    }
}

/// A line ends at its line break, which is a line feed or a carriage return
/// and a line feed, and what follows is read on its own. A text without a line
/// feed is one line, and nothing is none.
pub proof fn law_lines_end_at_line_breaks(line: Seq<char>, rest: Seq<char>)
    requires
        forall|i: int| 0 <= i < line.len() ==> (#[trigger] line[i]) != '\n',
    ensures
        line.len() == 0 || line.last() != '\r' ==> line_seq(line + seq!['\n'] + rest) == seq![line]
            + line_seq(rest),
        line_seq(line + seq!['\r', '\n'] + rest) == seq![line] + line_seq(rest),
        line.len() > 0 ==> line_seq(line) == seq![line],
        line_seq(Seq::<char>::empty()) == Seq::<Seq<char>>::empty(),
{
    let feed = seq!['\n'];
    lemma_line(line, rest);
    let ended = line.push('\r');
    lemma_line(ended, rest);
    assert(ended + feed + rest == line + seq!['\r', '\n'] + rest);
    assert(ended.drop_last() == line);
    lemma_first_from(line, feed, 0);
    match first_in(line, feed) {
        Some(k) => {
            assert(line.subrange(k, k + 1)[0] == line[k]);
        },
        None => {},
    }
}

proof fn lemma_line(line: Seq<char>, rest: Seq<char>)
    requires
        forall|i: int| 0 <= i < line.len() ==> (#[trigger] line[i]) != '\n',
    ensures
        line_seq(line + seq!['\n'] + rest) == seq![without_cr(line)] + line_seq(rest),
{
    let feed = seq!['\n'];
    let s = line + feed + rest;
    let n = line.len() as int;
    lemma_first_from(s, feed, 0);
    assert(s.subrange(n, n + 1) == feed);
    assert(occurs_at(s, feed, n));
    match first_in(s, feed) {
        Some(k) => {
            assert(s.subrange(k, k + 1)[0] == s[k]);
            if k < n {
                assert(s[k] == line[k]);
            }
            assert(k == n);
        },
        None => {},
    }
    assert(s.take(n) == line);
    assert(s.skip(n + 1) == rest);
}

/// The words of a text are what stands between its white space, in order.
pub proof fn law_words_stand_between_blanks(before: Seq<char>, w: Seq<char>, rest: Seq<char>)
    requires
        is_blank(before),
        w.len() > 0,
        forall|i: int| 0 <= i < w.len() ==> !white_space(#[trigger] w[i]),
        rest.len() == 0 || white_space(rest[0]),
    ensures
        word_seq(before) == Seq::<Seq<char>>::empty(),
        word_seq(before + w + rest) == seq![w] + word_seq(rest),
{
    lemma_blank_is_trimmed_away(before);
    assert(!white_space(w[0]));
    let t = w + rest;
    assert(t[0] == w[0]);
    law_trimming_takes_the_blanks_around_a_text(before, t, Seq::empty());
    assert(before + w + rest == before + t);
    lemma_after_the_word(w, rest);
    assert(t.take(t.len() - rest.len()) == w);
}

proof fn lemma_after_the_word(w: Seq<char>, rest: Seq<char>)
    requires
        forall|i: int| 0 <= i < w.len() ==> !white_space(#[trigger] w[i]),
        rest.len() == 0 || white_space(rest[0]),
    ensures
        after_word(w + rest) == rest,
    decreases w.len(),
{
    if w.len() == 0 {
        assert(w + rest == rest);
    } else {
        let less = w.drop_first();
        assert((w + rest).drop_first() == less + rest);
        assert forall|i: int| 0 <= i < less.len() implies !white_space(#[trigger] less[i]) by {
            assert(less[i] == w[i + 1]);
        }
        assert(!white_space(w[0]));
        lemma_after_the_word(less, rest);
    }
}

/// Numbers are written and read digit by digit: a digit more at the end makes
/// ten times the number and the digit, a plus sign before them changes
/// nothing, and what holds anything but digits is no number.
pub proof fn law_numbers_are_decimal(n: nat, d: nat, s: Seq<char>, i: int)
    requires
        d < 10,
    ensures
        decimal(d).len() == 1,
        decimal(d)[0] as nat == 48 + d,
        n > 0 ==> decimal(n * 10 + d) == decimal(n) + decimal(d),
        number_value(decimal(n)) == Some(n),
        number_value(seq!['+'] + decimal(n)) == Some(n),
        number_value(Seq::<char>::empty()) is None,
        0 <= i < s.len() && !(48 <= s[i] as nat <= 57) && !(i == 0 && s[0] == '+') ==> number_value(
            s,
        ) is None,
{
    lemma_decimal_reads_back(n);
    if n > 0 {
        let m = n * 10 + d;
        assert(m / 10 == n && m % 10 == d);
        assert(decimal(n).push(digit_char(d)) == decimal(n) + decimal(d));
    }
    let signed = seq!['+'] + decimal(n);
    assert(signed.drop_first() == decimal(n));
    let u = unsigned_part(s);
    if 0 <= i < s.len() && !(48 <= s[i] as nat <= 57) && !(i == 0 && s[0] == '+') {
        if s[0] == '+' {
            assert(u[i - 1] == s[i]);
            assert(!is_digit(u[i - 1]));
        } else {
            assert(u[i] == s[i]);
            assert(!is_digit(u[i]));
        }
    }
}

/// Splitting ends a piece where the separator first comes, and goes on behind
/// it. A text without the separator is one piece.
pub proof fn law_a_piece_ends_at_the_separator(a: Seq<char>, rest: Seq<char>, c: char)
    requires
        forall|i: int| 0 <= i < a.len() ==> (#[trigger] a[i]) != c,
    ensures
        pieces(a, seq![c]) == seq![a],
        pieces(a + seq![c] + rest, seq![c]) == seq![a] + pieces(rest, seq![c]),
{
    let s = a + seq![c] + rest;
    let n = a.len() as int;
    lemma_first_from(a, seq![c], 0);
    if let Some(k) = first_in(a, seq![c]) {
        assert(a.subrange(k, k + 1)[0] == a[k]);
    }
    lemma_first_from(s, seq![c], 0);
    assert(s.subrange(n, n + 1) == seq![c]);
    assert(occurs_at(s, seq![c], n));
    match first_in(s, seq![c]) {
        Some(k) => {
            assert(s.subrange(k, k + 1)[0] == s[k]);
            if k < n {
                assert(s[k] == a[k]);
            }
            assert(k == n);
        },
        None => {},
    }
    assert(s.take(n) == a);
    assert(s.skip(n + 1) == rest);
}

/// What a list of texts is keeps every one of them, in its place.
pub proof fn law_a_list_keeps_every_text(
    owned: Seq<String>,
    borrowed: Seq<&str>,
    chars: Seq<Vec<char>>,
    i: int,
)
    ensures
        string_views(owned).len() == owned.len(),
        0 <= i < owned.len() ==> string_views(owned)[i] == owned[i]@,
        str_views(borrowed).len() == borrowed.len(),
        0 <= i < borrowed.len() ==> str_views(borrowed)[i] == borrowed[i]@,
        views(chars).len() == chars.len(),
        0 <= i < chars.len() ==> views(chars)[i] == chars[i]@,
{
}

/// Parts that are joined by a character that is in none of them split back
/// into the parts.
pub proof fn law_joined_parts_split_back(parts: Seq<Seq<char>>, c: char)
    requires
        parts.len() > 0,
        forall|i: int, j: int|
            #![trigger parts[i][j]]
            0 <= i < parts.len() && 0 <= j < parts[i].len() ==> parts[i][j] != c,
    ensures
        pieces(joined(parts, seq![c]), seq![c]) == parts,
    decreases parts.len(),
{
    let first = parts[0];
    let rest = parts.skip(1);
    assert forall|j: int| 0 <= j < first.len() implies (#[trigger] first[j]) != c by {
        assert(parts[0][j] != c);
    }
    if rest.len() == 0 {
        assert(parts == seq![first]);
        law_a_piece_ends_at_the_separator(first, Seq::empty(), c);
    } else {
        assert forall|i: int, j: int|
            #![trigger rest[i][j]]
            0 <= i < rest.len() && 0 <= j < rest[i].len() implies rest[i][j] != c by {
            assert(parts[i + 1][j] != c);
        }
        law_joined_parts_split_back(rest, c);
        assert(parts == seq![first] + rest);
        law_joining_puts_separators_between(seq![first], rest, seq![c]);
        law_joining_puts_separators_between(seq![first], seq![first], seq![c]);
        law_a_piece_ends_at_the_separator(first, joined(rest, seq![c]), c);
    }
}

} // verus!

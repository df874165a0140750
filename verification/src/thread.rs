//! Message threads from what an IMAP server answers to a THREAD.

use crate::text;
use vstd::prelude::*;

verus! {

/// What follows `prefix` on the first of `lines` that starts with it.
pub open spec fn after_first(lines: Seq<Seq<char>>, prefix: Seq<char>) -> Option<Seq<char>>
    decreases lines.len(),
{
    if lines.len() == 0 {
        None
    } else if text::begins(lines[0], prefix) {
        Some(lines[0].skip(prefix.len() as int))
    } else {
        after_first(lines.drop_first(), prefix)
    }
}

/// What follows `prefix` on the first of `lines` that starts with it.
pub(crate) fn find_after(lines: &Vec<Vec<char>>, prefix: &str) -> (r: Option<Vec<char>>)
    ensures
        match r {
            Some(rest) => after_first(text::views(lines@), prefix@) == Some(rest@),
            None => after_first(text::views(lines@), prefix@) is None,
        },
{
    let ghost all = text::views(lines@);
    let mut i: usize = 0;
    assert(all.skip(0) == all);
    while i < lines.len()
        invariant
            i <= lines@.len(),
            all == text::views(lines@),
            after_first(all, prefix@) == after_first(all.skip(i as int), prefix@),
        decreases lines@.len() - i,
    {
        assert(all.skip(i as int).drop_first() == all.skip(i + 1));
        if let Some(rest) = text::strip_prefix(&lines[i], prefix) {
            return Some(text::copy(rest));
        }
        i = i + 1;
    }
    None
}

/// How many groups are open after `s`. A `)` too many closes nothing.
pub open spec fn open_groups(s: Seq<char>) -> nat
    decreases s.len(),
{
    if s.len() == 0 {
        0
    } else {
        let before = open_groups(s.drop_last());
        if s.last() == '(' {
            before + 1
        } else if s.last() == ')' && before > 0 {
            (before - 1) as nat
        } else {
            before
        }
    }
}

/// Whether `s` ends where a thread ends: at a `)` that leaves no group open.
pub open spec fn ends_thread(s: Seq<char>) -> bool {
    s.len() > 0 && s.last() == ')' && open_groups(s) == 0
}

/// What stands in `s` after the last end of a thread.
pub open spec fn unfinished(s: Seq<char>) -> Seq<char>
    decreases s.len(),
{
    if s.len() == 0 || ends_thread(s) {
        seq![]
    } else {
        unfinished(s.drop_last()).push(s.last())
    }
}

/// The digits at the end of `s`.
pub open spec fn last_digits(s: Seq<char>) -> Seq<char>
    decreases s.len(),
{
    if s.len() == 0 || !text::is_digit(s.last()) {
        seq![]
    } else {
        last_digits(s.drop_last()).push(s.last())
    }
}

/// The UID that the digits `d` write, if they write one.
pub open spec fn uid_of(d: Seq<char>) -> Seq<u32> {
    if d.len() > 0 && text::digits_value(d) <= u32::MAX {
        seq![text::digits_value(d) as u32]
    } else {
        seq![]
    }
}

/// The UIDs in `s`: its runs of digits that something else follows.
pub open spec fn uids_in(s: Seq<char>) -> Seq<u32>
    decreases s.len(),
{
    if s.len() == 0 {
        seq![]
    } else if text::is_digit(s.last()) {
        uids_in(s.drop_last())
    } else {
        uids_in(s.drop_last()) + uid_of(last_digits(s.drop_last()))
    }
}

/// The threads in `s`: the UIDs between the end of one thread and the end of
/// the next, where there are any.
pub open spec fn threads_in(s: Seq<char>) -> Seq<Seq<u32>>
    decreases s.len(),
{
    if s.len() == 0 {
        seq![]
    } else {
        let before = threads_in(s.drop_last());
        let thread = uids_in(unfinished(s.drop_last()).push(s.last()));
        if ends_thread(s) && thread.len() > 0 {
            before.push(thread)
        } else {
            before
        }
    }
}

/// The data of the first THREAD line in `response`.
pub open spec fn thread_data(response: Seq<char>) -> Seq<char> {
    match after_first(text::line_seq(response), "* THREAD"@) {
        Some(rest) => text::trimmed(rest),
        None => seq![],
    }
}

/// What the threads `v` hold.
pub open spec fn thread_views(v: Seq<Vec<u32>>) -> Seq<Seq<u32>> {
    Seq::new(v.len(), |i: int| v[i]@)
}

proof fn lemma_last_digits(s: Seq<char>)
    ensures
        text::all_digits(last_digits(s)),
    decreases s.len(),
{
    if s.len() > 0 && text::is_digit(s.last()) {
        lemma_last_digits(s.drop_last());
    }
}

fn flush(digits: &mut Vec<char>, uids: &mut Vec<u32>)
    requires
        text::all_digits(old(digits)@),
    ensures
        final(digits)@ == Seq::<char>::empty(),
        final(uids)@ == old(uids)@ + uid_of(old(digits)@),
{
    proof {
        if digits@.len() > 0 {
            assert(text::is_digit(digits@[0]));
        }
    }
    if let Some(uid) = text::parse_number(digits, 0xffff_ffff) {
        uids.push(uid as u32);
    }
    digits.clear();
    assert(uids@ == old(uids)@ + uid_of(old(digits)@));
}

fn scan_threads(data: &[char]) -> (r: Vec<Vec<u32>>)
    ensures
        thread_views(r@) == threads_in(data@),
{
    let mut threads: Vec<Vec<u32>> = Vec::new();
    let mut current: Vec<u32> = Vec::new();
    let mut depth: usize = 0;
    let mut digits: Vec<char> = Vec::new();
    let mut i: usize = 0;
    assert(thread_views(threads@) == threads_in(data@.take(0)));
    while i < data.len()
        invariant
            i <= data@.len(),
            depth <= i,
            depth == open_groups(data@.take(i as int)),
            thread_views(threads@) == threads_in(data@.take(i as int)),
            current@ == uids_in(unfinished(data@.take(i as int))),
            digits@ == last_digits(unfinished(data@.take(i as int))),
        decreases data@.len() - i,
    {
        let ghost p = data@.take(i as int);
        let ghost q = data@.take(i + 1);
        assert(q.drop_last() == p);
        let ghost seg = unfinished(p).push(q.last());
        assert(seg.drop_last() == unfinished(p));
        proof {
            lemma_last_digits(unfinished(p));
        }
        let c = data[i];
        if '0' <= c && c <= '9' {
            digits.push(c);
        } else {
            flush(&mut digits, &mut current);
            assert(current@ == uids_in(seg));
            if c == '(' {
                depth = depth + 1;
            } else if c == ')' {
                if depth > 0 {
                    depth = depth - 1;
                }
                if depth == 0 {
                    if current.len() > 0 {
                        let ghost before = threads@;
                        threads.push(current);
                        assert(thread_views(threads@) == thread_views(before).push(current@));
                    }
                    current = Vec::new();
                }
            }
        }
        i = i + 1;
    }
    assert(data@.take(data@.len() as int) == data@);
    threads
}

/// Parse the response to `UID THREAD ... ALL` into a list of threads.
///
/// Each thread holds all the UIDs that belong to it, depth first. The list is
/// empty when the response has no `* THREAD` line or no UIDs.
pub fn parse_thread_response(response: &str) -> (r: Vec<Vec<u32>>)
    ensures
        thread_views(r@) == threads_in(thread_data(response@)),
{
    let lines = text::lines(&text::chars(response));
    match find_after(&lines, "* THREAD") {
        Some(rest) => scan_threads(text::trim(&rest)),
        None => {
            let none: Vec<Vec<u32>> = Vec::new();
            assert(thread_views(none@) == threads_in(Seq::empty()));
            none
        },
    }
}

// ---------------------------------------------------------------------------
// Reading back what a server writes
// ---------------------------------------------------------------------------

/// A thread as the server sees it: messages that each answer the one before,
/// and then the branches that the last of them was answered with.
pub struct ThreadTree {
    pub trunk: Seq<u32>,
    pub branches: Seq<ThreadTree>,
}

/// The UIDs `uids`, one space between each two.
pub open spec fn numbers_text(uids: Seq<u32>) -> Seq<char>
    decreases uids.len(),
{
    if uids.len() == 0 {
        seq![]
    } else if uids.len() == 1 {
        text::decimal(uids[0] as nat)
    } else {
        numbers_text(uids.drop_last()).push(' ') + text::decimal(uids.last() as nat)
    }
}

/// What a server writes for the thread `t`.
pub open spec fn tree_text(t: ThreadTree) -> Seq<char>
    decreases t,
{
    let trunk = seq!['('] + numbers_text(t.trunk);
    let fork = if t.branches.len() > 0 {
        trunk.push(' ')
    } else {
        trunk
    };
    (fork + trees_text(t.branches)).push(')')
}

/// What a server writes for the threads `ts`.
pub open spec fn trees_text(ts: Seq<ThreadTree>) -> Seq<char>
    decreases ts,
{
    if ts.len() == 0 {
        seq![]
    } else {
        trees_text(ts.drop_last()) + tree_text(ts.last())
    }
}

/// The UIDs of `t`, depth first.
pub open spec fn tree_uids(t: ThreadTree) -> Seq<u32>
    decreases t,
{
    t.trunk + trees_uids(t.branches)
}

/// The UIDs of `ts`, depth first.
pub open spec fn trees_uids(ts: Seq<ThreadTree>) -> Seq<u32>
    decreases ts,
{
    if ts.len() == 0 {
        seq![]
    } else {
        trees_uids(ts.drop_last()) + tree_uids(ts.last())
    }
}

/// The UIDs met since the last end of a thread in `s`, a number at its end
/// taken as finished.
spec fn pending(s: Seq<char>) -> Seq<u32> {
    uids_in(unfinished(s)) + uid_of(last_digits(unfinished(s)))
}

proof fn lemma_push(p: Seq<char>, c: char)
    ensures
        text::is_digit(c) ==> {
            &&& open_groups(p.push(c)) == open_groups(p)
            &&& uids_in(unfinished(p.push(c))) == uids_in(unfinished(p))
            &&& last_digits(unfinished(p.push(c))) == last_digits(unfinished(p)).push(c)
            &&& threads_in(p.push(c)) == threads_in(p)
        },
        c == '(' || c == ' ' || (c == ')' && open_groups(p) > 1) ==> {
            &&& open_groups(p.push(c)) == (if c == '(' {
                open_groups(p) + 1int
            } else if c == ')' {
                open_groups(p) - 1
            } else {
                open_groups(p) as int
            })
            &&& last_digits(unfinished(p.push(c))) == Seq::<char>::empty()
            &&& pending(p.push(c)) == pending(p)
            &&& uids_in(unfinished(p.push(c))) == pending(p)
            &&& threads_in(p.push(c)) == threads_in(p)
        },
        c == ')' && open_groups(p) <= 1 ==> {
            &&& open_groups(p.push(c)) == 0
            &&& pending(p.push(c)) == Seq::<u32>::empty()
            &&& threads_in(p.push(c)) == (if pending(p).len() > 0 {
                threads_in(p).push(pending(p))
            } else {
                threads_in(p)
            })
        },
{
    let q = p.push(c);
    assert(q.drop_last() == p);
    let seg = unfinished(p).push(c);
    assert(seg.drop_last() == unfinished(p));
    if !text::is_digit(c) {
        assert(uids_in(seg) == pending(p));
        assert(pending(p) + Seq::<u32>::empty() == pending(p));
    }
}

proof fn lemma_push_digits(p: Seq<char>, d: Seq<char>)
    requires
        text::all_digits(d),
    ensures
        open_groups(p + d) == open_groups(p),
        uids_in(unfinished(p + d)) == uids_in(unfinished(p)),
        last_digits(unfinished(p + d)) == last_digits(unfinished(p)) + d,
        threads_in(p + d) == threads_in(p),
    decreases d.len(),
{
    if d.len() == 0 {
        assert(p + d == p);
    } else {
        assert(text::all_digits(d.drop_last())) by {
            assert forall|k: int| 0 <= k < d.len() - 1 implies text::is_digit(
                #[trigger] d.drop_last()[k],
            ) by {
                assert(d.drop_last()[k] == d[k]);
            }
        }
        lemma_push_digits(p, d.drop_last());
        assert(p + d == (p + d.drop_last()).push(d.last()));
        assert(text::is_digit(d[d.len() - 1]));
        lemma_push(p + d.drop_last(), d.last());
    }
}

proof fn lemma_push_number(p: Seq<char>, n: u32)
    requires
        last_digits(unfinished(p)) == Seq::<char>::empty(),
    ensures
        open_groups(p + text::decimal(n as nat)) == open_groups(p),
        pending(p + text::decimal(n as nat)) == pending(p).push(n),
        threads_in(p + text::decimal(n as nat)) == threads_in(p),
{
    text::lemma_decimal_reads_back(n as nat);
    lemma_push_digits(p, text::decimal(n as nat));
    assert(Seq::<char>::empty() + text::decimal(n as nat) == text::decimal(n as nat));
    assert(uids_in(unfinished(p)) + Seq::<u32>::empty() == uids_in(unfinished(p)));
    assert(uids_in(unfinished(p)) + seq![n] == uids_in(unfinished(p)).push(n));
}

proof fn lemma_push_numbers(p: Seq<char>, uids: Seq<u32>)
    requires
        last_digits(unfinished(p)) == Seq::<char>::empty(),
    ensures
        open_groups(p + numbers_text(uids)) == open_groups(p),
        pending(p + numbers_text(uids)) == pending(p) + uids,
        threads_in(p + numbers_text(uids)) == threads_in(p),
    decreases uids.len(),
{
    if uids.len() == 0 {
        assert(p + numbers_text(uids) == p);
        assert(pending(p) + uids == pending(p));
    } else if uids.len() == 1 {
        lemma_push_number(p, uids[0]);
        assert(pending(p).push(uids[0]) == pending(p) + uids);
    } else {
        let before = p + numbers_text(uids.drop_last());
        lemma_push_numbers(p, uids.drop_last());
        lemma_push(before, ' ');
        lemma_push_number(before.push(' '), uids.last());
        assert(p + numbers_text(uids) == before.push(' ') + text::decimal(uids.last() as nat));
        assert((pending(p) + uids.drop_last()).push(uids.last()) == pending(p) + uids);
    }
}

proof fn lemma_push_tree(p: Seq<char>, t: ThreadTree)
    ensures
        open_groups(p + tree_text(t)) == open_groups(p),
        open_groups(p) > 0 ==> {
            &&& pending(p + tree_text(t)) == pending(p) + tree_uids(t)
            &&& threads_in(p + tree_text(t)) == threads_in(p)
        },
        open_groups(p) == 0 && (pending(p) + tree_uids(t)).len() > 0 ==> {
            &&& pending(p + tree_text(t)) == Seq::<u32>::empty()
            &&& threads_in(p + tree_text(t)) == threads_in(p).push(pending(p) + tree_uids(t))
        },
    decreases t,
{
    let opened = p.push('(');
    lemma_push(p, '(');
    lemma_push_numbers(opened, t.trunk);
    let trunk = opened + numbers_text(t.trunk);
    let fork = if t.branches.len() > 0 {
        trunk.push(' ')
    } else {
        trunk
    };
    lemma_push(trunk, ' ');
    lemma_push_trees(fork, t.branches);
    let inside = fork + trees_text(t.branches);
    lemma_push(inside, ')');
    assert(p + tree_text(t) == inside.push(')'));
    assert(pending(inside) == pending(p) + tree_uids(t));
}

proof fn lemma_push_trees(p: Seq<char>, ts: Seq<ThreadTree>)
    requires
        open_groups(p) > 0,
    ensures
        open_groups(p + trees_text(ts)) == open_groups(p),
        pending(p + trees_text(ts)) == pending(p) + trees_uids(ts),
        threads_in(p + trees_text(ts)) == threads_in(p),
    decreases ts,
{
    if ts.len() == 0 {
        assert(p + trees_text(ts) == p);
        assert(pending(p) + trees_uids(ts) == pending(p));
    } else {
        lemma_push_trees(p, ts.drop_last());
        let before = p + trees_text(ts.drop_last());
        lemma_push_tree(before, ts.last());
        assert(p + trees_text(ts) == before + tree_text(ts.last()));
        assert(pending(p) + trees_uids(ts.drop_last()) + tree_uids(ts.last()) == pending(p)
            + trees_uids(ts));
    }
}

proof fn lemma_top_trees(ts: Seq<ThreadTree>)
    requires
        forall|i: int| 0 <= i < ts.len() ==> tree_uids(#[trigger] ts[i]).len() > 0,
    ensures
        threads_in(trees_text(ts)) == Seq::new(ts.len(), |i: int| tree_uids(ts[i])),
        open_groups(trees_text(ts)) == 0,
        pending(trees_text(ts)) == Seq::<u32>::empty(),
    decreases ts.len(),
{
    if ts.len() == 0 {
        assert(threads_in(trees_text(ts)) == Seq::<Seq<u32>>::empty());
        assert(pending(trees_text(ts)) == Seq::<u32>::empty());
    } else {
        let before = ts.drop_last();
        assert forall|i: int| 0 <= i < before.len() implies tree_uids(#[trigger] before[i]).len()
            > 0 by {
            assert(before[i] == ts[i]);
        }
        lemma_top_trees(before);
        let last = ts[ts.len() - 1];
        lemma_push_tree(trees_text(before), last);
        assert(Seq::<u32>::empty() + tree_uids(last) == tree_uids(last));
        assert(threads_in(trees_text(ts)) == Seq::new(ts.len(), |i: int| tree_uids(ts[i])));
    }
}

spec fn thread_char(c: char) -> bool {
    text::is_digit(c) || c == '(' || c == ')' || c == ' '
}

spec fn thread_chars(s: Seq<char>) -> bool {
    forall|i: int| 0 <= i < s.len() ==> thread_char(#[trigger] s[i])
}

proof fn lemma_numbers_chars(uids: Seq<u32>)
    ensures
        thread_chars(numbers_text(uids)),
    decreases uids.len(),
{
    if uids.len() > 0 {
        lemma_numbers_chars(uids.drop_last());
        let last = text::decimal(uids.last() as nat);
        text::lemma_decimal_reads_back(uids.last() as nat);
        assert forall|i: int| 0 <= i < last.len() implies thread_char(#[trigger] last[i]) by {
            assert(text::is_digit(last[i]));
        }
    }
}

proof fn lemma_tree_chars(t: ThreadTree)
    ensures
        thread_chars(tree_text(t)),
        tree_text(t).len() > 1,
        tree_text(t)[0] == '(',
        tree_text(t).last() == ')',
    decreases t,
{
    lemma_numbers_chars(t.trunk);
    lemma_trees_chars(t.branches);
}

proof fn lemma_trees_chars(ts: Seq<ThreadTree>)
    ensures
        thread_chars(trees_text(ts)),
        ts.len() > 0 ==> {
            &&& trees_text(ts).len() > 1
            &&& trees_text(ts)[0] == '('
            &&& trees_text(ts).last() == ')'
        },
    decreases ts,
{
    if ts.len() > 0 {
        lemma_trees_chars(ts.drop_last());
        lemma_tree_chars(ts.last());
    }
}

proof fn lemma_line_before(line: Seq<char>, rest: Seq<char>)
    requires
        forall|i: int| 0 <= i < line.len() ==> (#[trigger] line[i]) != '\n',
    ensures
        text::line_seq(line + seq!['\n'] + rest) == seq![text::without_cr(line)] + text::line_seq(
            rest,
        ),
{
    let feed = seq!['\n'];
    let s = line + feed + rest;
    let n = line.len() as int;
    text::lemma_first_from(s, feed, 0);
    assert(s.subrange(n, n + 1) == feed);
    assert(text::occurs_at(s, feed, n));
    match text::first_in(s, feed) {
        Some(k) => {
            assert(s.subrange(k, k + 1)[0] == s[k]);
            if k < n {
                assert(s[k] == line[k]);
            }
            assert(k == n);
        },
        None => {},
    }
    assert(s.take(n) == line);
    assert(s.skip(n + 1) == rest);
}

/// Whether `line` can stand before the THREAD line of a response: it is no
/// THREAD line, and one line.
pub open spec fn is_other_line(line: Seq<char>) -> bool {
    &&& !text::begins(line, "* THREAD"@)
    &&& forall|i: int| 0 <= i < line.len() ==> (#[trigger] line[i]) != '\n'
}

/// The lines `lines`, each with its line break.
pub open spec fn lines_text(lines: Seq<Seq<char>>) -> Seq<char>
    decreases lines.len(),
{
    if lines.len() == 0 {
        seq![]
    } else {
        lines[0] + "\r\n"@ + lines_text(lines.drop_first())
    }
}

proof fn lemma_other_lines(lines: Seq<Seq<char>>, rest: Seq<char>)
    requires
        forall|i: int| 0 <= i < lines.len() ==> is_other_line(#[trigger] lines[i]),
    ensures
        thread_data(lines_text(lines) + rest) == thread_data(rest),
    decreases lines.len(),
{
    if lines.len() == 0 {
        assert(lines_text(lines) + rest == rest);
    } else {
        reveal_strlit("\r\n");
        let after = lines.drop_first();
        assert forall|i: int| 0 <= i < after.len() implies is_other_line(#[trigger] after[i]) by {
            assert(after[i] == lines[i + 1]);
        }
        lemma_other_lines(after, rest);
        assert(is_other_line(lines[0]));
        let line = lines[0].push('\r');
        let tail = lines_text(after) + rest;
        let s = lines_text(lines) + rest;
        assert(s == line + seq!['\n'] + tail);
        lemma_line_before(line, tail);
        assert(text::without_cr(line) == lines[0]);
        let all = text::line_seq(s);
        assert(all[0] == lines[0]);
        assert(all.drop_first() == text::line_seq(tail));
    }
}

/// The threads that a server writes are the threads that are read, each with
/// its branches flattened into it depth first, whatever other lines of the
/// response stand before the THREAD line, and whatever follows the line break
/// at its end, if it has one.
pub proof fn law_written_threads_read_back(
    before: Seq<Seq<char>>,
    ts: Seq<ThreadTree>,
    after: Seq<char>,
)
    requires
        forall|i: int| 0 <= i < before.len() ==> is_other_line(#[trigger] before[i]),
        forall|i: int| 0 <= i < ts.len() ==> tree_uids(#[trigger] ts[i]).len() > 0,
        after.len() == 0 || text::begins(after, "\r\n"@) || text::begins(after, "\n"@),
    ensures
        threads_in(
            thread_data(lines_text(before) + ("* THREAD "@ + trees_text(ts) + after)),
        ) == Seq::new(ts.len(), |i: int| tree_uids(ts[i])),
{
    lemma_top_trees(ts);
    lemma_trees_chars(ts);
    reveal_strlit("* THREAD ");
    reveal_strlit("* THREAD");
    reveal_strlit("\r\n");
    reveal_strlit("\n");
    let data = trees_text(ts);
    let line = "* THREAD "@ + data;
    let s = line + after;
    lemma_other_lines(before, s);
    assert forall|i: int| 0 <= i < line.len() implies (#[trigger] line[i]) != '\n' && line[i]
        != '\r' by {
        if i >= 9 {
            assert(thread_char(data[i - 9]));
        }
    }
    if after.len() == 0 {
        assert(s == line);
        text::lemma_first_from(line, seq!['\n'], 0);
        match text::first_in(line, seq!['\n']) {
            Some(k) => {
                assert(line.subrange(k, k + 1)[0] == line[k]);
            },
            None => {},
        }
        assert(text::line_seq(s) == seq![line]);
    } else if text::begins(after, "\r\n"@) {
        assert(after.take(2)[0] == after[0] && after.take(2)[1] == after[1]);
        let ended = line.push('\r');
        assert(s == ended + seq!['\n'] + after.skip(2));
        lemma_line_before(ended, after.skip(2));
        assert(text::without_cr(ended) == line);
    } else {
        assert(after.take(1)[0] == after[0]);
        assert(s == line + seq!['\n'] + after.skip(1));
        lemma_line_before(line, after.skip(1));
        assert(line.last() == line[line.len() - 1]);
        assert(text::without_cr(line) == line);
    }
    assert(text::line_seq(s)[0] == line);
    assert(line.take(8) == "* THREAD"@);
    let rest = line.skip(8);
    assert(rest == seq![' '] + data);
    assert(rest.drop_first() == data);
    reveal_with_fuel(text::trimmed_start, 2);
    assert(text::trimmed_start(rest) == data);
    assert(text::trimmed(rest) == data);
}

/// A response in which no line starts with `* THREAD` has no threads.
pub proof fn law_a_response_without_threads_has_none(response: Seq<char>)
    requires
        forall|i: int|
            0 <= i < text::line_seq(response).len() ==> !text::begins(
                #[trigger] text::line_seq(response)[i],
                "* THREAD"@,
            ),
    ensures
        threads_in(thread_data(response)) == Seq::<Seq<u32>>::empty(),
{
    lemma_not_found(text::line_seq(response), "* THREAD"@);
}

proof fn lemma_not_found(lines: Seq<Seq<char>>, prefix: Seq<char>)
    requires
        forall|i: int| 0 <= i < lines.len() ==> !text::begins(#[trigger] lines[i], prefix),
    ensures
        after_first(lines, prefix) is None,
    decreases lines.len(),
{
    if lines.len() > 0 {
        let rest = lines.drop_first();
        assert(!text::begins(lines[0], prefix));
        assert forall|i: int| 0 <= i < rest.len() implies !text::begins(
            #[trigger] rest[i],
            prefix,
        ) by {
            assert(rest[i] == lines[i + 1]);
        }
        lemma_not_found(rest, prefix);
    }
}

/// What follows a prefix is looked for line by line: the first line that starts
/// with it is the one that counts.
pub proof fn law_the_first_line_with_the_prefix_counts(
    before: Seq<Seq<char>>,
    prefix: Seq<char>,
    rest: Seq<char>,
    after: Seq<Seq<char>>,
)
    requires
        forall|i: int| 0 <= i < before.len() ==> !text::begins(#[trigger] before[i], prefix),
    ensures
        after_first(before + seq![prefix + rest] + after, prefix) == Some(rest),
        after_first(before, prefix) is None,
    decreases before.len(),
{
    lemma_not_found(before, prefix);
    let line = prefix + rest;
    let all = before + seq![line] + after;
    if before.len() == 0 {
        assert(all[0] == line);
        text::law_a_prefix_and_the_rest(line, prefix, rest);
    } else {
        let less = before.drop_first();
        assert(!text::begins(before[0], prefix));
        assert forall|i: int| 0 <= i < less.len() implies !text::begins(
            #[trigger] less[i],
            prefix,
        ) by {
            assert(less[i] == before[i + 1]);
        }
        law_the_first_line_with_the_prefix_counts(less, prefix, rest, after);
        assert(all[0] == before[0]);
        assert(all.drop_first() == less + seq![line] + after);
    }
}

/// A number that is too large for a UID is left out, and any other counts.
pub proof fn law_only_uids_count(n: nat)
    ensures
        n <= u32::MAX ==> uid_of(text::decimal(n)) == seq![n as u32],
        n > u32::MAX ==> uid_of(text::decimal(n)) == Seq::<u32>::empty(),
{
    text::lemma_decimal_reads_back(n);
}

} // verus!

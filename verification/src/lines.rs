//! Splitting a text into lines that keep their terminators.
//!
//! A line ends after `"\n"`, after `"\r\n"`, or after a `'\r'` that no `'\n'`
//! follows.  The last line of a text may lack a terminator.

use crate::text::{string_from, to_chars};
use vstd::prelude::*;

verus! {

/// A line of `s` ends just before position `i`.
pub open spec fn is_break(s: Seq<char>, i: int) -> bool {
    &&& 0 < i <= s.len()
    &&& (s[i - 1] == '\n' || (s[i - 1] == '\r' && !(i < s.len() && s[i] == '\n')))
}

/// A line of `s` starts at position `i`.
pub open spec fn is_line_start(s: Seq<char>, i: int) -> bool {
    0 <= i < s.len() && (i == 0 || is_break(s, i))
}

/// Where the line that starts at `from` ends: the first break after `from`,
/// or the end of the text when there is none.
pub open spec fn line_end(s: Seq<char>, from: int) -> int
    decreases s.len() - from,
{
    if from < 0 || from >= s.len() {
        s.len() as int
    } else if is_break(s, from + 1) {
        from + 1
    } else {
        line_end(s, from + 1)
    }
}

/// The lines of `s` from position `from` on, `from` being the start of a line.
pub open spec fn lines_from(s: Seq<char>, from: int) -> Seq<Seq<char>>
    decreases s.len() - from,
{
    if 0 <= from < s.len() {
        proof {
            lemma_line_end_bounds(s, from);
        }
        seq![s.subrange(from, line_end(s, from))] + lines_from(s, line_end(s, from))
    } else {
        Seq::empty()
    }
}

/// The lines of `s`, each with its terminator.
pub open spec fn lines_of(s: Seq<char>) -> Seq<Seq<char>> {
    lines_from(s, 0)
}

/// `l` is one line: it is not empty and no line ends inside it.
pub open spec fn is_line(l: Seq<char>) -> bool {
    &&& l.len() > 0
    &&& forall|j: int| 0 < j < l.len() ==> !is_break(l, j)
}

/// `l` ends with a line terminator.
pub open spec fn is_terminated(l: Seq<char>) -> bool {
    l.len() > 0 && (l.last() == '\n' || l.last() == '\r')
}

/// `lines` is a sequence of lines as a text yields them: each is one line,
/// each but the last ends with a terminator, and none that ends with `'\r'`
/// is followed by one that starts with `'\n'`.
pub open spec fn are_lines(lines: Seq<Seq<char>>) -> bool {
    forall|i: int|
        0 <= i < lines.len() ==> is_line(#[trigger] lines[i]) && (i < lines.len() - 1 ==> {
            &&& is_terminated(lines[i])
            &&& !(lines[i].last() == '\r' && lines[i + 1].first() == '\n')
        })
}

/// The line that starts inside the text ends after its start and within the text.
pub proof fn lemma_line_end_bounds(s: Seq<char>, from: int)
    requires
        0 <= from < s.len(),
    ensures
        from < line_end(s, from) <= s.len(),
    decreases s.len() - from,
{
    if !is_break(s, from + 1) {
        if from + 1 < s.len() {
            lemma_line_end_bounds(s, from + 1);
        } else {
            assert(line_end(s, from + 1) == s.len());
        }
    }
}

/// The line that starts at `from` ends at the first break after `from`.
pub proof fn lemma_line_end_first_break(s: Seq<char>, from: int, end: int)
    requires
        0 <= from < end <= s.len(),
        forall|j: int| from < j < end ==> !is_break(s, j),
        is_break(s, end) || end == s.len(),
    ensures
        line_end(s, from) == end,
    decreases end - from,
{
    if from + 1 < end {
        lemma_line_end_first_break(s, from + 1, end);
    } else if !is_break(s, end) {
        assert(line_end(s, from + 1) == s.len());
    }
}

/// No line ends strictly between a line's start and its end, and a line
/// that stops short of the end of the text stops at a break.
pub proof fn lemma_line_end_no_break_before(s: Seq<char>, from: int)
    requires
        0 <= from < s.len(),
    ensures
        forall|j: int| from < j < line_end(s, from) ==> !is_break(s, j),
        line_end(s, from) < s.len() ==> is_break(s, line_end(s, from)),
        is_break(s, line_end(s, from)) || line_end(s, from) == s.len(),
    decreases s.len() - from,
{
    if !is_break(s, from + 1) {
        if from + 1 < s.len() {
            lemma_line_end_no_break_before(s, from + 1);
        } else {
            assert(line_end(s, from + 1) == s.len());
        }
    }
}

/// Joined in order, the lines from `from` on give back the text from `from` on.
pub proof fn lemma_lines_from_flatten(s: Seq<char>, from: int)
    requires
        0 <= from <= s.len(),
    ensures
        lines_from(s, from).flatten() == s.skip(from),
    decreases s.len() - from,
{
    if from < s.len() {
        let end = line_end(s, from);
        lemma_line_end_bounds(s, from);
        lemma_lines_from_flatten(s, end);
        let head = seq![s.subrange(from, end)];
        vstd::seq_lib::lemma_flatten_concat(head, lines_from(s, end));
        head.lemma_flatten_one_element();
        assert(s.subrange(from, end) + s.skip(end) =~= s.skip(from));
    } else {
        assert(s.skip(from) =~= Seq::<char>::empty());
    }
}

/// Joined in order, the lines of a text give back the text: nothing is
/// dropped, added or changed.
pub proof fn lemma_lines_flatten(s: Seq<char>)
    ensures
        lines_of(s).flatten() == s,
{
    lemma_lines_from_flatten(s, 0);
    assert(s.skip(0) =~= s);
}

/// A stretch of text from a line's start to its end is one line.  Unless
/// it runs to the end of the text it ends with a terminator, and if that is
/// `'\r'` then no `'\n'` follows.
pub proof fn lemma_line_is_line(s: Seq<char>, from: int)
    requires
        0 <= from < s.len(),
    ensures
        is_line(s.subrange(from, line_end(s, from))),
        line_end(s, from) < s.len() ==> is_terminated(s.subrange(from, line_end(s, from))),
        line_end(s, from) < s.len() ==> !(s[line_end(s, from) - 1] == '\r' && s[line_end(
            s,
            from,
        )] == '\n'),
{
    let end = line_end(s, from);
    let l = s.subrange(from, end);
    lemma_line_end_bounds(s, from);
    lemma_line_end_no_break_before(s, from);
    assert forall|j: int| 0 < j < l.len() implies !is_break(l, j) by {
        assert(!is_break(s, from + j));
        assert(l[j - 1] == s[from + j - 1]);
        assert(l[j] == s[from + j]);
    }
    if end < s.len() {
        assert(is_break(s, end));
        assert(l.last() == s[end - 1]);
    }
}

/// The lines from `from` on are lines, each but the last with a terminator.
pub proof fn lemma_lines_from_are_lines(s: Seq<char>, from: int)
    requires
        0 <= from <= s.len(),
    ensures
        are_lines(lines_from(s, from)),
    decreases s.len() - from,
{
    if from < s.len() {
        let end = line_end(s, from);
        lemma_line_end_bounds(s, from);
        lemma_line_is_line(s, from);
        lemma_lines_from_are_lines(s, end);
        let rest = lines_from(s, end);
        let all = lines_from(s, from);
        assert forall|i: int| 0 <= i < all.len() implies is_line(#[trigger] all[i]) && (i
            < all.len() - 1 ==> {
            &&& is_terminated(all[i])
            &&& !(all[i].last() == '\r' && all[i + 1].first() == '\n')
        }) by {
            if i > 0 {
                assert(all[i] == rest[i - 1]);
                if i < all.len() - 1 {
                    assert(all[i + 1] == rest[i]);
                }
            } else if all.len() > 1 {
                assert(rest.len() > 0);
                lemma_line_end_bounds(s, end);
                assert(all[1] == rest[0]);
                assert(rest[0].first() == s[end]);
                assert(all[0].last() == s[end - 1]);
            }
        }
    }
}

/// The lines of a text are lines, each but the last with a terminator.
pub proof fn lemma_lines_are_lines(s: Seq<char>)
    ensures
        are_lines(lines_of(s)),
{
    lemma_lines_from_are_lines(s, 0);
}

/// Every line of the text from a line start on is the stretch from some
/// line start to the end of that line.
pub proof fn lemma_lines_from_begin_at_starts(s: Seq<char>, from: int)
    requires
        is_line_start(s, from) || from == s.len(),
    ensures
        forall|k: int|
            0 <= k < lines_from(s, from).len() ==> exists|i: int|
                is_line_start(s, i) && #[trigger] lines_from(s, from)[k] == s.subrange(
                    i,
                    line_end(s, i),
                ),
    decreases s.len() - from,
{
    if from < s.len() {
        let end = line_end(s, from);
        lemma_line_end_bounds(s, from);
        lemma_line_end_no_break_before(s, from);
        lemma_lines_from_begin_at_starts(s, end);
        let all = lines_from(s, from);
        let rest = lines_from(s, end);
        assert forall|k: int| 0 <= k < all.len() implies exists|i: int|
            is_line_start(s, i) && #[trigger] all[k] == s.subrange(i, line_end(s, i)) by {
            if k == 0 {
                assert(is_line_start(s, from) && all[0] == s.subrange(from, line_end(s, from)));
            } else {
                assert(all[k] == rest[k - 1]);
                let i = choose|i: int|
                    is_line_start(s, i) && rest[k - 1] == s.subrange(i, line_end(s, i));
                assert(is_line_start(s, i) && all[k] == s.subrange(i, line_end(s, i)));
            }
        }
    }
}

/// Every line of a text is the stretch from some line start to the end of
/// that line.
pub proof fn lemma_lines_begin_at_starts(s: Seq<char>, line: Seq<char>)
    requires
        lines_of(s).contains(line),
    ensures
        exists|i: int| is_line_start(s, i) && line == s.subrange(i, line_end(s, i)),
{
    if s.len() > 0 {
        lemma_lines_from_begin_at_starts(s, 0);
    }
    let k = choose|k: int| 0 <= k < lines_of(s).len() && lines_of(s)[k] == line;
    assert(lines_from(s, 0)[k] == line);
}

/// The stretch from a line start to the end of that line is among the
/// lines from any earlier line start on.
pub proof fn lemma_start_begins_line_from(s: Seq<char>, from: int, i: int)
    requires
        is_line_start(s, from),
        is_line_start(s, i),
        from <= i,
    ensures
        lines_from(s, from).contains(s.subrange(i, line_end(s, i))),
    decreases s.len() - from,
{
    let end = line_end(s, from);
    let all = lines_from(s, from);
    lemma_line_end_bounds(s, from);
    if i == from {
        assert(all[0] == s.subrange(i, line_end(s, i)));
    } else {
        lemma_line_end_no_break_before(s, from);
        assert(is_break(s, i));
        assert(end <= i);
        lemma_start_begins_line_from(s, end, i);
        let rest = lines_from(s, end);
        let k = choose|k: int| 0 <= k < rest.len() && rest[k] == s.subrange(i, line_end(s, i));
        assert(all[k + 1] == rest[k]);
    }
}

/// The stretch from a line start to the end of that line is a line of the text.
pub proof fn lemma_start_begins_line(s: Seq<char>, i: int)
    requires
        is_line_start(s, i),
    ensures
        lines_of(s).contains(s.subrange(i, line_end(s, i))),
{
    lemma_start_begins_line_from(s, 0, i);
}

/// Behind a prefix, breaks are where they are without it.
pub proof fn lemma_line_end_behind(prefix: Seq<char>, s: Seq<char>, from: int)
    requires
        0 <= from <= s.len(),
    ensures
        line_end(prefix + s, prefix.len() + from) == prefix.len() + line_end(s, from),
    decreases s.len() - from,
{
    let whole = prefix + s;
    if from < s.len() {
        assert(whole[prefix.len() + from] == s[from]);
        if from + 1 < s.len() {
            assert(whole[prefix.len() + from + 1] == s[from + 1]);
        }
        assert(is_break(whole, prefix.len() + from + 1) == is_break(s, from + 1));
        if !is_break(s, from + 1) {
            lemma_line_end_behind(prefix, s, from + 1);
        }
    }
}

/// Behind a prefix, the lines from a position on are those of the rest
/// alone.
pub proof fn lemma_lines_behind(prefix: Seq<char>, s: Seq<char>, from: int)
    requires
        0 <= from <= s.len(),
    ensures
        lines_from(prefix + s, prefix.len() + from) == lines_from(s, from),
    decreases s.len() - from,
{
    let whole = prefix + s;
    if from < s.len() {
        let end = line_end(s, from);
        lemma_line_end_bounds(s, from);
        lemma_line_end_behind(prefix, s, from);
        lemma_lines_behind(prefix, s, end);
        assert(whole.subrange(prefix.len() + from, prefix.len() + end) =~= s.subrange(from, end));
    }
}

/// Splitting what lines join to gives the lines back: a text has one
/// sequence of lines only.
pub proof fn lemma_lines_of_joined(lines: Seq<Seq<char>>)
    requires
        are_lines(lines),
    ensures
        lines_of(lines.flatten()) == lines,
    decreases lines.len(),
{
    if lines.len() == 0 {
        assert(lines_of(lines.flatten()) =~= lines);
    } else {
        let first = lines.first();
        let rest = lines.drop_first();
        let joined = rest.flatten();
        let text = lines.flatten();
        assert(are_lines(rest)) by {
            assert forall|i: int| 0 <= i < rest.len() implies is_line(#[trigger] rest[i]) && (i
                < rest.len() - 1 ==> {
                &&& is_terminated(rest[i])
                &&& !(rest[i].last() == '\r' && rest[i + 1].first() == '\n')
            }) by {
                assert(rest[i] == lines[i + 1]);
                if i < rest.len() - 1 {
                    assert(rest[i + 1] == lines[i + 2]);
                }
            }
        }
        lemma_lines_of_joined(rest);
        assert(text == first + joined);
        assert(is_line(lines[0]));
        assert forall|j: int| 0 < j < first.len() implies !is_break(text, j) by {
            assert(text[j - 1] == first[j - 1]);
            assert(text[j] == first[j]);
            assert(!is_break(first, j));
        }
        if rest.len() > 0 {
            assert(rest[0] == lines[1]);
            assert(is_line(rest[0]));
            assert(joined == rest.first() + rest.drop_first().flatten());
            assert(joined.len() > 0 && joined[0] == lines[1].first());
            assert(text[first.len() as int] == joined[0]);
            assert(text[first.len() - 1] == first.last());
            assert(is_break(text, first.len() as int));
        } else {
            assert(joined =~= Seq::<char>::empty());
        }
        lemma_line_end_first_break(text, 0, first.len() as int);
        lemma_lines_behind(first, joined, 0);
        assert(text.subrange(0, first.len() as int) =~= first);
        assert(seq![first] + rest =~= lines);
    }
}

/// Whether the `len` lines of `old_lines` from `old_index` on equal the
/// `len` lines of `new_lines` from `new_index` on.
pub fn same_lines(
    old_lines: &Vec<String>,
    old_index: usize,
    new_lines: &Vec<String>,
    new_index: usize,
    len: usize,
) -> (same: bool)
    requires
        old_index + len <= old_lines.len(),
        new_index + len <= new_lines.len(),
    ensures
        same == (old_lines.deep_view().subrange(old_index as int, old_index + len)
            == new_lines.deep_view().subrange(new_index as int, new_index + len)),
{
    let ghost a = old_lines.deep_view().subrange(old_index as int, old_index + len);
    let ghost b = new_lines.deep_view().subrange(new_index as int, new_index + len);
    let mut k: usize = 0;
    while k < len
        invariant
            k <= len,
            old_index + len <= old_lines.len(),
            new_index + len <= new_lines.len(),
            a == old_lines.deep_view().subrange(old_index as int, old_index + len),
            b == new_lines.deep_view().subrange(new_index as int, new_index + len),
            forall|j: int| 0 <= j < k ==> a[j] == b[j],
        decreases len - k,
    {
        if old_lines[old_index + k] != new_lines[new_index + k] {
            assert(a[k as int] != b[k as int]);
            return false;
        }
        k += 1;
    }
    assert(a =~= b);
    true
}

/// Splits a text, given as its characters, into its lines.  Every line
/// keeps its terminator; the empty text has no lines.
pub fn split_chars(chars: &Vec<char>) -> (lines: Vec<String>)
    ensures
        lines.deep_view() == lines_of(chars@),
        lines.deep_view().flatten() == chars@,
        are_lines(lines.deep_view()),
{
    let n = chars.len();
    let mut lines: Vec<String> = Vec::new();
    let mut start: usize = 0;
    let mut i: usize = 0;
    while i < n
        invariant
            n == chars.len(),
            0 <= start <= i <= n,
            forall|j: int| start < j <= i ==> !is_break(chars@, j),
            lines.deep_view() + lines_from(chars@, start as int) == lines_of(chars@),
        decreases n - i,
    {
        let c = chars[i];
        i += 1;
        if c == '\n' || (c == '\r' && !(i < n && chars[i] == '\n')) {
            let line = string_from(chars, start, i);
            proof {
                lemma_line_end_first_break(chars@, start as int, i as int);
                assert(lines.deep_view().push(line@) + lines_from(chars@, i as int)
                    =~= lines.deep_view() + lines_from(chars@, start as int));
            }
            let ghost before = lines.deep_view();
            lines.push(line);
            assert(lines.deep_view() =~= before.push(line@));
            start = i;
        }
    }
    if start < n {
        let line = string_from(chars, start, n);
        proof {
            lemma_line_end_first_break(chars@, start as int, n as int);
            assert(lines_from(chars@, n as int) =~= Seq::<Seq<char>>::empty());
            assert(lines.deep_view().push(line@) =~= lines.deep_view() + lines_from(
                chars@,
                start as int,
            ));
        }
        let ghost before = lines.deep_view();
        lines.push(line);
        assert(lines.deep_view() =~= before.push(line@));
    } else {
        assert(lines.deep_view() + lines_from(chars@, start as int) =~= lines.deep_view());
    }
    proof {
        lemma_lines_flatten(chars@);
        lemma_lines_are_lines(chars@);
    }
    lines
}

/// Splits `text` into its lines.  Every line keeps its terminator, so the
/// lines joined in order are the text again; the empty text has no lines.
pub fn split_lines(text: &str) -> (lines: Vec<String>)
    ensures
        lines.deep_view() == lines_of(text@),
        lines.deep_view().flatten() == text@,
        are_lines(lines.deep_view()),
{
    let chars = to_chars(text);
    split_chars(&chars)
}

} // verus!

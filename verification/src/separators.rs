//! Where the separator line stands in a rendered diff: between two groups,
//! and nowhere else.

use crate::lines::{
    are_lines, is_break, is_line, is_line_start, is_terminated, lemma_line_end_bounds,
    lemma_line_end_first_break, lemma_lines_begin_at_starts, lemma_start_begins_line, line_end,
    lines_of,
};
use crate::groups::{are_groups, lemma_group_in_bounds};
use crate::ops::{
    changes_of, in_bounds, lemma_changes_last, new_part, old_part, op_changes, tagged, ChangeTag,
    DiffOp,
};
use crate::render::{
    change_text, changes_text, group_blocks, group_text, groups_text, lemma_changes_text_concat,
    lemma_changes_text_push, separator, sign,
};
use vstd::prelude::*;

verus! {

/// `c` is one of the three signs that a rendered change starts with.
pub open spec fn is_sign(c: char) -> bool {
    c == '-' || c == '+' || c == ' '
}

/// Every line of `text` starts with a sign.
pub open spec fn line_starts_signed(text: Seq<char>) -> bool {
    forall|i: int| is_line_start(text, i) ==> is_sign(text[i])
}

/// `text` is empty or ends with a line terminator.
pub open spec fn ends_closed(text: Seq<char>) -> bool {
    text.len() == 0 || text.last() == '\n' || text.last() == '\r'
}

/// A text whose lines all start with a sign keeps that property when one
/// more rendered change follows it, and ends closed if the change's line
/// has a terminator.
pub proof fn lemma_signed_push_change(text: Seq<char>, tag: ChangeTag, line: Seq<char>)
    requires
        line_starts_signed(text),
        is_line(line),
    ensures
        line_starts_signed(text + change_text((tag, line))),
        is_terminated(line) ==> ends_closed(text + change_text((tag, line))),
{
    let more = text + change_text((tag, line));
    assert forall|i: int| is_line_start(more, i) implies is_sign(more[i]) by {
        if i < text.len() {
            assert(more[i] == text[i]);
            if i > 0 {
                assert(more[i - 1] == text[i - 1]);
                assert(is_break(text, i));
            }
            assert(is_line_start(text, i));
        } else if i == text.len() {
            assert(more[i] == sign(tag));
        } else {
            let j = i - text.len() - 1;
            if j == 0 {
                assert(more[i - 1] == sign(tag));
            } else {
                assert(more[i - 1] == line[j - 1]);
                assert(more[i] == line[j]);
                assert(is_break(line, j));
            }
        }
    }
    if is_terminated(line) {
        assert(more.last() == line.last());
    }
}

/// The same for a stretch of lines rendered under one tag.
pub proof fn lemma_signed_push_lines(text: Seq<char>, tag: ChangeTag, lines: Seq<Seq<char>>)
    requires
        line_starts_signed(text),
        forall|k: int| 0 <= k < lines.len() ==> is_line(#[trigger] lines[k]),
    ensures
        line_starts_signed(text + changes_text(tagged(tag, lines))),
        ends_closed(text) && (forall|k: int| 0 <= k < lines.len() ==> is_terminated(#[trigger] lines[k]))
            ==> ends_closed(text + changes_text(tagged(tag, lines))),
    decreases lines.len(),
{
    if lines.len() == 0 {
        assert(tagged(tag, lines) =~= Seq::<(ChangeTag, Seq<char>)>::empty());
        assert(text + changes_text(tagged(tag, lines)) =~= text);
    } else {
        let init = lines.drop_last();
        let last = lines.last();
        lemma_signed_push_lines(text, tag, init);
        assert(tagged(tag, lines) =~= tagged(tag, init).push((tag, last)));
        lemma_changes_text_push(tagged(tag, init), (tag, last));
        let so_far = text + changes_text(tagged(tag, init));
        lemma_signed_push_change(so_far, tag, last);
        assert(text + changes_text(tagged(tag, lines)) =~= so_far + change_text((tag, last)));
        if forall|k: int| 0 <= k < lines.len() ==> is_terminated(#[trigger] lines[k]) {
            assert(is_terminated(lines[lines.len() - 1]));
        }
    }
}

/// The same for the changes of one operation.  Its lines all have a
/// terminator when what it covers stops short of the last line of either
/// text.
pub proof fn lemma_signed_push_op(
    text: Seq<char>,
    op: DiffOp,
    old_lines: Seq<Seq<char>>,
    new_lines: Seq<Seq<char>>,
)
    requires
        line_starts_signed(text),
        are_lines(old_lines),
        are_lines(new_lines),
        in_bounds(op, old_lines.len() as int, new_lines.len() as int),
    ensures
        line_starts_signed(text + changes_text(op_changes(op, old_lines, new_lines))),
        ends_closed(text) && in_bounds(op, old_lines.len() - 1, new_lines.len() - 1)
            ==> ends_closed(text + changes_text(op_changes(op, old_lines, new_lines))),
{
    let old_covered = old_part(op, old_lines);
    let new_covered = new_part(op, new_lines);
    assert forall|k: int| 0 <= k < old_covered.len() implies is_line(#[trigger] old_covered[k]) by {
        assert(old_covered[k] == old_lines[op.old_start() + k]);
    }
    assert forall|k: int| 0 <= k < new_covered.len() implies is_line(#[trigger] new_covered[k]) by {
        assert(new_covered[k] == new_lines[op.new_start() + k]);
    }
    if in_bounds(op, old_lines.len() - 1, new_lines.len() - 1) {
        assert forall|k: int| 0 <= k < old_covered.len() implies is_terminated(
            #[trigger] old_covered[k],
        ) by {
            assert(old_covered[k] == old_lines[op.old_start() + k]);
        }
        assert forall|k: int| 0 <= k < new_covered.len() implies is_terminated(
            #[trigger] new_covered[k],
        ) by {
            assert(new_covered[k] == new_lines[op.new_start() + k]);
        }
    }
    match op {
        DiffOp::Equal { .. } => {
            lemma_signed_push_lines(text, ChangeTag::Equal, old_covered);
        },
        DiffOp::Delete { .. } => {
            lemma_signed_push_lines(text, ChangeTag::Delete, old_covered);
        },
        DiffOp::Insert { .. } => {
            lemma_signed_push_lines(text, ChangeTag::Insert, new_covered);
        },
        DiffOp::Replace { .. } => {
            let deleted = tagged(ChangeTag::Delete, old_covered);
            let inserted = tagged(ChangeTag::Insert, new_covered);
            lemma_signed_push_lines(text, ChangeTag::Delete, old_covered);
            lemma_signed_push_lines(text + changes_text(deleted), ChangeTag::Insert, new_covered);
            lemma_changes_text_concat(deleted, inserted);
            assert(text + changes_text(deleted + inserted) =~= text + changes_text(deleted)
                + changes_text(inserted));
        },
    }
}

/// The same for the changes of a sequence of operations.
pub proof fn lemma_signed_push_ops(
    text: Seq<char>,
    ops: Seq<DiffOp>,
    old_lines: Seq<Seq<char>>,
    new_lines: Seq<Seq<char>>,
)
    requires
        line_starts_signed(text),
        are_lines(old_lines),
        are_lines(new_lines),
        forall|i: int|
            0 <= i < ops.len() ==> in_bounds(
                #[trigger] ops[i],
                old_lines.len() as int,
                new_lines.len() as int,
            ),
    ensures
        line_starts_signed(text + group_text(ops, old_lines, new_lines)),
        ends_closed(text) && (forall|i: int|
            0 <= i < ops.len() ==> in_bounds(
                #[trigger] ops[i],
                old_lines.len() - 1,
                new_lines.len() - 1,
            )) ==> ends_closed(text + group_text(ops, old_lines, new_lines)),
    decreases ops.len(),
{
    if ops.len() == 0 {
        assert(changes_of(ops, old_lines, new_lines) =~= Seq::<(ChangeTag, Seq<char>)>::empty());
        assert(text + group_text(ops, old_lines, new_lines) =~= text);
    } else {
        let init = ops.drop_last();
        let last = ops.last();
        assert forall|i: int| 0 <= i < init.len() implies in_bounds(
            #[trigger] init[i],
            old_lines.len() as int,
            new_lines.len() as int,
        ) by {
            assert(init[i] == ops[i]);
        }
        lemma_signed_push_ops(text, init, old_lines, new_lines);
        let so_far = text + group_text(init, old_lines, new_lines);
        lemma_signed_push_op(so_far, last, old_lines, new_lines);
        lemma_changes_last(ops, old_lines, new_lines);
        lemma_changes_text_concat(
            changes_of(init, old_lines, new_lines),
            op_changes(last, old_lines, new_lines),
        );
        assert(text + group_text(ops, old_lines, new_lines) =~= so_far + changes_text(
            op_changes(last, old_lines, new_lines),
        ));
        if forall|i: int|
            0 <= i < ops.len() ==> in_bounds(
                #[trigger] ops[i],
                old_lines.len() - 1,
                new_lines.len() - 1,
            ) {
            assert forall|i: int| 0 <= i < init.len() implies in_bounds(
                #[trigger] init[i],
                old_lines.len() - 1,
                new_lines.len() - 1,
            ) by {
                assert(init[i] == ops[i]);
            }
            assert(in_bounds(ops[ops.len() - 1], old_lines.len() - 1, new_lines.len() - 1));
        }
    }
}

/// No line of a text whose lines all start with a sign is the separator.
pub proof fn lemma_signed_has_no_separator(text: Seq<char>)
    requires
        line_starts_signed(text),
    ensures
        !lines_of(text).contains(separator()),
{
    if lines_of(text).contains(separator()) {
        lemma_lines_begin_at_starts(text, separator());
        let i = choose|i: int|
            is_line_start(text, i) && separator() == text.subrange(i, line_end(text, i));
        lemma_line_end_bounds(text, i);
        assert(separator()[0] == '.');
        assert(text.subrange(i, line_end(text, i))[0] == text[i]);
    }
}

/// A separator that follows a text which ends closed is a line of the
/// whole, whatever comes after it.
pub proof fn lemma_separator_is_line(before: Seq<char>, after: Seq<char>)
    requires
        ends_closed(before),
    ensures
        lines_of(before + separator() + after).contains(separator()),
{
    let text = before + separator() + after;
    let at = before.len() as int;
    assert(text[at] == '.' && text[at + 1] == '.' && text[at + 2] == '.' && text[at + 3] == '\n');
    if at > 0 {
        assert(text[at - 1] == before.last());
    }
    assert(is_line_start(text, at));
    lemma_line_end_first_break(text, at, at + 4);
    assert(text.subrange(at, at + 4) =~= separator());
    lemma_start_begins_line(text, at);
}

/// The separator line stands in a rendered diff if and only if the diff
/// has at least two groups: no rendered change can pass for it, and every
/// separator that is written stands on a line of its own.
pub proof fn lemma_separator_iff_two_groups(
    groups: Seq<Seq<DiffOp>>,
    old_lines: Seq<Seq<char>>,
    new_lines: Seq<Seq<char>>,
)
    requires
        are_lines(old_lines),
        are_lines(new_lines),
        are_groups(groups, old_lines, new_lines),
    ensures
        lines_of(groups_text(groups, old_lines, new_lines)).contains(separator()) <==> groups.len()
            >= 2,
{
    let blocks = group_blocks(groups, old_lines, new_lines);
    let text = groups_text(groups, old_lines, new_lines);
    let none = Seq::<char>::empty();
    if groups.len() == 0 {
        assert(text =~= none);
        assert(lines_of(text) =~= Seq::<Seq<char>>::empty());
    } else {
        let first = groups[0];
        assert forall|i: int| 0 <= i < first.len() implies in_bounds(
            #[trigger] first[i],
            old_lines.len() as int,
            new_lines.len() as int,
        ) by {
            lemma_group_in_bounds(groups, old_lines, new_lines, 0, i);
        }
        lemma_signed_push_ops(none, first, old_lines, new_lines);
        let head = group_text(first, old_lines, new_lines);
        assert(none + head =~= head);
        assert(blocks[0] =~= head);
        if groups.len() == 1 {
            blocks.lemma_flatten_one_element();
            assert(text =~= head);
            lemma_signed_has_no_separator(text);
        } else {
            let second = groups[1];
            assert forall|i: int| 0 <= i < first.len() implies in_bounds(
                #[trigger] first[i],
                old_lines.len() - 1,
                new_lines.len() - 1,
            ) by {
                lemma_group_in_bounds(groups, old_lines, new_lines, 0, i);
            }
            let rest = blocks.drop_first().drop_first().flatten();
            let tail = group_text(second, old_lines, new_lines) + rest;
            let later = blocks.drop_first();
            assert(later.first() == blocks[1]);
            assert(text == blocks.first() + later.flatten());
            assert(later.flatten() == later.first() + later.drop_first().flatten());
            assert(text =~= head + separator() + tail);
            lemma_separator_is_line(head, tail);
        }
    }
}

} // verus!

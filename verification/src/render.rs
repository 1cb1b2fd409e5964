//! Rendering display groups as text: one line per change behind a sign, and
//! a separator line between groups.

use crate::ops::{changes_of, in_bounds, lemma_changes_last, op_changes, tagged, ChangeTag, DiffOp};
use vstd::prelude::*;
use vstd::string::StringExecFns;

verus! {

/// The sign that a change of the given tag is rendered behind.
pub open spec fn sign(tag: ChangeTag) -> char {
    match tag {
        ChangeTag::Delete => '-',
        ChangeTag::Insert => '+',
        ChangeTag::Equal => ' ',
    }
}

/// The line that separates two groups.
pub open spec fn separator() -> Seq<char> {
    seq!['.', '.', '.', '\n']
}

/// One change as text: its sign, then its line as it is.
pub open spec fn change_text(change: (ChangeTag, Seq<char>)) -> Seq<char> {
    seq![sign(change.0)] + change.1
}

/// Each of `changes` as text.
pub open spec fn change_texts(changes: Seq<(ChangeTag, Seq<char>)>) -> Seq<Seq<char>> {
    changes.map_values(|c: (ChangeTag, Seq<char>)| change_text(c))
}

/// `changes` as text, one after the other.
pub open spec fn changes_text(changes: Seq<(ChangeTag, Seq<char>)>) -> Seq<char> {
    change_texts(changes).flatten()
}

/// One group as text: the changes of its operations, in order.
pub open spec fn group_text(
    group: Seq<DiffOp>,
    old_lines: Seq<Seq<char>>,
    new_lines: Seq<Seq<char>>,
) -> Seq<char> {
    changes_text(changes_of(group, old_lines, new_lines))
}

/// What group number `g` adds to the text: the separator unless it is the
/// first group, then the group itself.
pub open spec fn group_block(
    groups: Seq<Seq<DiffOp>>,
    g: int,
    old_lines: Seq<Seq<char>>,
    new_lines: Seq<Seq<char>>,
) -> Seq<char> {
    (if g == 0 {
        Seq::<char>::empty()
    } else {
        separator()
    }) + group_text(groups[g], old_lines, new_lines)
}

/// What each of the groups adds to the text.
pub open spec fn group_blocks(
    groups: Seq<Seq<DiffOp>>,
    old_lines: Seq<Seq<char>>,
    new_lines: Seq<Seq<char>>,
) -> Seq<Seq<char>> {
    Seq::new(groups.len(), |g: int| group_block(groups, g, old_lines, new_lines))
}

/// The groups as text: each group in order, with the separator before every
/// group but the first.  No group gives the empty text.
pub open spec fn groups_text(
    groups: Seq<Seq<DiffOp>>,
    old_lines: Seq<Seq<char>>,
    new_lines: Seq<Seq<char>>,
) -> Seq<char> {
    group_blocks(groups, old_lines, new_lines).flatten()
}

/// Every operation of every group stays within texts of the given numbers of lines.
pub open spec fn groups_in_bounds(groups: Seq<Seq<DiffOp>>, old_len: int, new_len: int) -> bool {
    forall|g: int, i: int|
        0 <= g < groups.len() && 0 <= i < groups[g].len() ==> in_bounds(
            #[trigger] groups[g][i],
            old_len,
            new_len,
        )
}

/// Changes followed by one more, as text.
pub proof fn lemma_changes_text_push(changes: Seq<(ChangeTag, Seq<char>)>, change: (ChangeTag, Seq<char>))
    ensures
        changes_text(changes.push(change)) == changes_text(changes) + change_text(change),
{
    assert(change_texts(changes.push(change)) =~= change_texts(changes).push(change_text(change)));
    change_texts(changes).lemma_flatten_push(change_text(change));
}

/// Changes followed by more changes, as text.
pub proof fn lemma_changes_text_concat(x: Seq<(ChangeTag, Seq<char>)>, y: Seq<(ChangeTag, Seq<char>)>)
    ensures
        changes_text(x + y) == changes_text(x) + changes_text(y),
{
    assert(change_texts(x + y) =~= change_texts(x) + change_texts(y));
    vstd::seq_lib::lemma_flatten_concat(change_texts(x), change_texts(y));
}

/// The sign that a change of the given tag is rendered behind.
pub fn sign_of(tag: ChangeTag) -> (c: char)
    ensures
        c == sign(tag),
{
    match tag {
        ChangeTag::Delete => '-',
        ChangeTag::Insert => '+',
        ChangeTag::Equal => ' ',
    }
}

/// Appends to `out` the `count` lines from `from` on, each behind the sign of `tag`.
fn push_lines(out: &mut String, tag: ChangeTag, lines: &Vec<String>, from: usize, count: usize)
    requires
        from + count <= lines.len(),
    ensures
        final(out)@ == old(out)@ + changes_text(
            tagged(tag, lines.deep_view().subrange(from as int, from + count)),
        ),
{
    let ghost before = out@;
    let ghost all = lines.deep_view();
    let mut k: usize = 0;
    proof {
        assert(tagged(tag, all.subrange(from as int, from as int)) =~= Seq::<
            (ChangeTag, Seq<char>),
        >::empty());
        assert(before + changes_text(tagged(tag, all.subrange(from as int, from as int)))
            =~= before);
    }
    while k < count
        invariant
            k <= count,
            from + count <= lines.len(),
            all == lines.deep_view(),
            out@ == before + changes_text(tagged(tag, all.subrange(from as int, from + k))),
        decreases count - k,
    {
        let ghost done = tagged(tag, all.subrange(from as int, from + k));
        let line = &lines[from + k];
        out.push(sign_of(tag));
        out.append(line.as_str());
        proof {
            lemma_changes_text_push(done, (tag, line@));
            assert(tagged(tag, all.subrange(from as int, from + k + 1)) =~= done.push(
                (tag, line@),
            ));
            assert(out@ =~= before + (changes_text(done) + change_text((tag, line@))));
        }
        k += 1;
    }
}

/// Appends to `out` the changes of `op`.
fn push_op(out: &mut String, op: &DiffOp, old_lines: &Vec<String>, new_lines: &Vec<String>)
    requires
        in_bounds(*op, old_lines.len() as int, new_lines.len() as int),
    ensures
        final(out)@ == old(out)@ + changes_text(
            op_changes(*op, old_lines.deep_view(), new_lines.deep_view()),
        ),
{
    let ghost before = out@;
    match op {
        DiffOp::Equal { old_index, len, .. } => {
            push_lines(out, ChangeTag::Equal, old_lines, *old_index, *len);
        },
        DiffOp::Delete { old_index, old_len, .. } => {
            push_lines(out, ChangeTag::Delete, old_lines, *old_index, *old_len);
        },
        DiffOp::Insert { new_index, new_len, .. } => {
            push_lines(out, ChangeTag::Insert, new_lines, *new_index, *new_len);
        },
        DiffOp::Replace { old_index, old_len, new_index, new_len } => {
            push_lines(out, ChangeTag::Delete, old_lines, *old_index, *old_len);
            push_lines(out, ChangeTag::Insert, new_lines, *new_index, *new_len);
            proof {
                let deleted = tagged(
                    ChangeTag::Delete,
                    old_lines.deep_view().subrange(op.old_start(), op.old_end()),
                );
                let inserted = tagged(
                    ChangeTag::Insert,
                    new_lines.deep_view().subrange(op.new_start(), op.new_end()),
                );
                lemma_changes_text_concat(deleted, inserted);
                assert(out@ =~= before + (changes_text(deleted) + changes_text(inserted)));
            }
        },
    }
}

/// Appends to `out` the changes of the operations of `group`.
fn push_group(out: &mut String, group: &Vec<DiffOp>, old_lines: &Vec<String>, new_lines: &Vec<String>)
    requires
        forall|i: int|
            0 <= i < group.len() ==> in_bounds(
                #[trigger] group@[i],
                old_lines.len() as int,
                new_lines.len() as int,
            ),
    ensures
        final(out)@ == old(out)@ + group_text(group@, old_lines.deep_view(), new_lines.deep_view()),
{
    let ghost before = out@;
    let ghost a = old_lines.deep_view();
    let ghost b = new_lines.deep_view();
    let mut i: usize = 0;
    proof {
        assert(changes_of(group@.take(0), a, b) =~= Seq::<(ChangeTag, Seq<char>)>::empty());
        assert(before + group_text(group@.take(0), a, b) =~= before);
    }
    while i < group.len()
        invariant
            i <= group.len(),
            a == old_lines.deep_view(),
            b == new_lines.deep_view(),
            forall|j: int|
                0 <= j < group.len() ==> in_bounds(
                    #[trigger] group@[j],
                    old_lines.len() as int,
                    new_lines.len() as int,
                ),
            out@ == before + group_text(group@.take(i as int), a, b),
        decreases group.len() - i,
    {
        let ghost done = group@.take(i as int);
        push_op(out, &group[i], old_lines, new_lines);
        proof {
            let next = group@.take(i + 1);
            assert(next.drop_last() =~= done);
            assert(next.last() == group@[i as int]);
            lemma_changes_last(next, a, b);
            lemma_changes_text_concat(changes_of(done, a, b), op_changes(group@[i as int], a, b));
            assert(out@ =~= before + (group_text(done, a, b) + changes_text(
                op_changes(group@[i as int], a, b),
            )));
        }
        i += 1;
    }
    assert(group@.take(group.len() as int) =~= group@);
}

/// Renders `groups` over the two line sequences: every change of every
/// group as its sign followed by its line, and a separator line before
/// every group but the first.
pub fn render_groups(
    old_lines: &Vec<String>,
    new_lines: &Vec<String>,
    groups: &Vec<Vec<DiffOp>>,
) -> (text: String)
    requires
        groups_in_bounds(groups.deep_view(), old_lines.len() as int, new_lines.len() as int),
    ensures
        text@ == groups_text(groups.deep_view(), old_lines.deep_view(), new_lines.deep_view()),
{
    let ghost gs = groups.deep_view();
    let ghost a = old_lines.deep_view();
    let ghost b = new_lines.deep_view();
    let mut text = String::new();
    let mut g: usize = 0;
    assert(group_blocks(gs, a, b).take(0).flatten() =~= Seq::<char>::empty());
    while g < groups.len()
        invariant
            g <= groups.len(),
            gs == groups.deep_view(),
            a == old_lines.deep_view(),
            b == new_lines.deep_view(),
            groups_in_bounds(gs, old_lines.len() as int, new_lines.len() as int),
            text@ == group_blocks(gs, a, b).take(g as int).flatten(),
        decreases groups.len() - g,
    {
        let ghost before = text@;
        if g > 0 {
            proof {
                reveal_strlit("...\n");
            }
            text.append("...\n");
            assert(text@ =~= before + separator());
        }
        let group = &groups[g];
        proof {
            assert(gs[g as int] == group@);
            assert forall|i: int| 0 <= i < group.len() implies in_bounds(
                #[trigger] group@[i],
                old_lines.len() as int,
                new_lines.len() as int,
            ) by {
                assert(group@[i] == gs[g as int][i]);
            }
        }
        push_group(&mut text, group, old_lines, new_lines);
        proof {
            let blocks = group_blocks(gs, a, b);
            assert(blocks.take(g + 1) =~= blocks.take(g as int).push(blocks[g as int]));
            blocks.take(g as int).lemma_flatten_push(blocks[g as int]);
            assert(text@ =~= before + group_block(gs, g as int, a, b));
        }
        g += 1;
    }
    assert(group_blocks(gs, a, b).take(groups.len() as int) =~= group_blocks(gs, a, b));
    text
}

} // verus!

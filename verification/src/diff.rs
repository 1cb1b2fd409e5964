//! The diff of two texts: their lines are aligned, the changes are grouped
//! with a few unchanged lines around them, and the groups are rendered.

use crate::aligner::{aligned_groups, aligned_ops, line_groups, line_ops, within_aligner_limit};
use crate::context::{check_context, keeps_context};
use crate::groups::{
    all_changes, check_diff, is_diff, lemma_diff_of_empty_side, lemma_diff_reconstructs,
    lemma_group_in_bounds,
};
use crate::lines::{lemma_lines_are_lines, lemma_lines_flatten, lines_of, split_chars};
use crate::ops::{
    changes_by_op, changes_of, expand, in_bounds, new_side, old_side, tagged, ChangeTag, DiffOp,
};
use crate::paths::{
    check_alignment, is_alignment, is_path, lemma_alignment_of_empty_new,
    lemma_alignment_of_empty_old, lemma_alignment_reconstructs, lemma_path_in_bounds, new_total,
    old_total,
};
use crate::render::{
    changes_text, group_blocks, group_text, groups_text, render_groups, separator,
};
use crate::separators::lemma_separator_iff_two_groups;
use crate::text::{same_chars, to_chars};
use vstd::prelude::*;

verus! {

/// How many unchanged lines a diff shows around every change.
pub const CONTEXT_LINES: usize = 3;

/// The text for `groups`, if they are a diff of the two line sequences
/// that keeps the context size.
pub open spec fn checked_groups_text(
    groups: Seq<Seq<DiffOp>>,
    old_lines: Seq<Seq<char>>,
    new_lines: Seq<Seq<char>>,
    context: usize,
) -> Option<Seq<char>> {
    if is_diff(groups, old_lines, new_lines) && keeps_context(
        groups,
        old_lines.len() as int,
        context as int,
    ) {
        Some(groups_text(groups, old_lines, new_lines))
    } else {
        None
    }
}

/// The diff of `old` and `new` for the context size `context` when the
/// aligner answers with `groups`: the empty text for equal texts, whatever
/// the groups; otherwise the rendered groups, provided the texts are within
/// the aligner's limit and the groups are a diff of the lines of the two
/// texts that keeps the context size.
pub open spec fn diff_outcome(
    old: Seq<char>,
    new: Seq<char>,
    context: usize,
    groups: Seq<Seq<DiffOp>>,
) -> Option<Seq<char>> {
    if old == new {
        Some(Seq::empty())
    } else if within_aligner_limit(old, new) {
        checked_groups_text(groups, lines_of(old), lines_of(new), context)
    } else {
        None
    }
}

/// The diff of `old` and `new` with up to `context` unchanged lines around
/// every change.
pub open spec fn diff_of(old: Seq<char>, new: Seq<char>, context: usize) -> Option<Seq<char>> {
    diff_outcome(old, new, context, aligned_groups(old, new, context))
}

/// The alignment of `n` lines with themselves: one run of equal lines, or no
/// operation where there are no lines.
pub open spec fn equal_run(n: nat) -> Seq<DiffOp> {
    if n == 0 {
        Seq::empty()
    } else {
        seq![DiffOp::Equal { old_index: 0, new_index: 0, len: n as usize }]
    }
}

/// The alignment of `old` and `new` when the aligner answers with `ops`:
/// for equal texts one run of equal lines, whatever the operations;
/// otherwise the operations themselves, provided the texts are within the
/// aligner's limit and the operations align the lines of the two texts.
pub open spec fn alignment_outcome(old: Seq<char>, new: Seq<char>, ops: Seq<DiffOp>) -> Option<
    Seq<DiffOp>,
> {
    if old == new {
        Some(equal_run(lines_of(old).len()))
    } else if within_aligner_limit(old, new) && is_alignment(ops, lines_of(old), lines_of(new)) {
        Some(ops)
    } else {
        None
    }
}

/// The changes of `old` and `new` when the aligner answers with `ops`: the
/// changes that the operations stand for, provided the texts have an
/// alignment.
pub open spec fn changes_outcome(old: Seq<char>, new: Seq<char>, ops: Seq<DiffOp>) -> Option<
    Seq<(ChangeTag, Seq<char>)>,
> {
    match alignment_outcome(old, new, ops) {
        Some(ops) => Some(changes_of(ops, lines_of(old), lines_of(new))),
        None => None,
    }
}

/// Replaying the changes of an alignment of two texts gives back both
/// texts: the equal and deleted lines, joined, are the old text, and the
/// equal and inserted lines, joined, are the new text.
pub proof fn lemma_alignment_replays(old: Seq<char>, new: Seq<char>, ops: Seq<DiffOp>)
    requires
        is_alignment(ops, lines_of(old), lines_of(new)),
    ensures
        old_side(changes_of(ops, lines_of(old), lines_of(new))).flatten() == old,
        new_side(changes_of(ops, lines_of(old), lines_of(new))).flatten() == new,
{
    lemma_alignment_reconstructs(ops, lines_of(old), lines_of(new));
    lemma_lines_flatten(old);
    lemma_lines_flatten(new);
}

/// One run of equal lines aligns a line sequence with itself, and its
/// changes are all the lines as equal lines.
pub proof fn lemma_equal_run_aligns(lines: Seq<Seq<char>>)
    requires
        lines.len() <= usize::MAX,
    ensures
        is_alignment(equal_run(lines.len()), lines, lines),
        changes_of(equal_run(lines.len()), lines, lines) == tagged(ChangeTag::Equal, lines),
{
    let run = equal_run(lines.len());
    if lines.len() == 0 {
        assert(changes_of(run, lines, lines) =~= tagged(ChangeTag::Equal, lines));
    } else {
        assert(run.drop_last() =~= Seq::<DiffOp>::empty());
        assert(is_path(run.drop_last(), lines, lines, 0, 0));
        assert(old_total(run.drop_last()) == 0 && new_total(run.drop_last()) == 0);
        changes_by_op(run, lines, lines).lemma_flatten_one_element();
        assert(lines.subrange(0, lines.len() as int) =~= lines);
    }
}

/// The diff of a text with itself is empty, whatever the context size.
pub proof fn lemma_diff_of_equal_texts(text: Seq<char>, context: usize)
    ensures
        diff_of(text, text, context) == Some(Seq::<char>::empty()),
{
}

/// The diff depends on the two texts and the context size alone: asked
/// twice for the same texts, it is the same, character for character.
pub proof fn lemma_diff_is_determined(
    old: Seq<char>,
    new: Seq<char>,
    old_again: Seq<char>,
    new_again: Seq<char>,
    context: usize,
)
    requires
        old == old_again,
        new == new_again,
    ensures
        diff_of(old, new, context) == diff_of(old_again, new_again, context),
{
}

/// A diff holds the separator line if and only if it has at least two
/// groups.  (The diff of equal texts is empty and holds none.)
pub proof fn lemma_diff_separator(
    old: Seq<char>,
    new: Seq<char>,
    context: usize,
    groups: Seq<Seq<DiffOp>>,
)
    requires
        diff_outcome(old, new, context, groups) is Some,
    ensures
        lines_of(diff_outcome(old, new, context, groups)->Some_0).contains(separator()) <==> old
            != new && groups.len() >= 2,
{
    if old == new {
        assert(lines_of(Seq::<char>::empty()) =~= Seq::<Seq<char>>::empty());
    } else {
        lemma_lines_are_lines(old);
        lemma_lines_are_lines(new);
        lemma_separator_iff_two_groups(groups, lines_of(old), lines_of(new));
    }
}

/// Where two texts have a diff, all that the diff stands for replays to
/// both texts: the lines it shows as equal or deleted, with the lines it
/// leaves out, are the old text, and the lines it shows as equal or
/// inserted, with the lines it leaves out, are the new text.
pub proof fn lemma_diff_replays(
    old: Seq<char>,
    new: Seq<char>,
    context: usize,
    groups: Seq<Seq<DiffOp>>,
)
    requires
        old != new,
        diff_outcome(old, new, context, groups) is Some,
    ensures
        old_side(all_changes(groups, lines_of(old), lines_of(new))).flatten() == old,
        new_side(all_changes(groups, lines_of(old), lines_of(new))).flatten() == new,
{
    lemma_diff_reconstructs(groups, lines_of(old), lines_of(new));
    lemma_lines_flatten(old);
    lemma_lines_flatten(new);
}

/// The diff of the empty text with another shows every line of the other
/// as inserted, and nothing else.
pub proof fn lemma_diff_of_empty_old(new: Seq<char>, context: usize, groups: Seq<Seq<DiffOp>>)
    requires
        new.len() > 0,
        diff_outcome(Seq::<char>::empty(), new, context, groups) is Some,
    ensures
        diff_outcome(Seq::<char>::empty(), new, context, groups) == Some(
            changes_text(tagged(ChangeTag::Insert, lines_of(new))),
        ),
{
    let none = Seq::<Seq<char>>::empty();
    let new_lines = lines_of(new);
    assert(lines_of(Seq::<char>::empty()) =~= none);
    lemma_lines_flatten(new);
    assert(new_lines.len() > 0) by {
        if new_lines.len() == 0 {
            assert(new_lines.flatten() =~= Seq::<char>::empty());
        }
    }
    lemma_diff_of_empty_side(groups, none, new_lines);
    lemma_alignment_of_empty_old(groups[0], new_lines);
    group_blocks(groups, none, new_lines).lemma_flatten_one_element();
    assert(Seq::<char>::empty() + group_text(groups[0], none, new_lines) =~= group_text(
        groups[0],
        none,
        new_lines,
    ));
}

/// The diff of a text with the empty text shows every line of the text as
/// deleted, and nothing else.
pub proof fn lemma_diff_of_empty_new(old: Seq<char>, context: usize, groups: Seq<Seq<DiffOp>>)
    requires
        old.len() > 0,
        diff_outcome(old, Seq::<char>::empty(), context, groups) is Some,
    ensures
        diff_outcome(old, Seq::<char>::empty(), context, groups) == Some(
            changes_text(tagged(ChangeTag::Delete, lines_of(old))),
        ),
{
    let none = Seq::<Seq<char>>::empty();
    let old_lines = lines_of(old);
    assert(lines_of(Seq::<char>::empty()) =~= none);
    lemma_lines_flatten(old);
    assert(old_lines.len() > 0) by {
        if old_lines.len() == 0 {
            assert(old_lines.flatten() =~= Seq::<char>::empty());
        }
    }
    lemma_diff_of_empty_side(groups, old_lines, none);
    lemma_alignment_of_empty_new(groups[0], old_lines);
    group_blocks(groups, old_lines, none).lemma_flatten_one_element();
    assert(Seq::<char>::empty() + group_text(groups[0], old_lines, none) =~= group_text(
        groups[0],
        old_lines,
        none,
    ));
}

/// Renders `groups` if they are a diff of the two line sequences that
/// keeps the context size `context`.
pub fn render_checked(
    old_lines: &Vec<String>,
    new_lines: &Vec<String>,
    groups: &Vec<Vec<DiffOp>>,
    context: usize,
) -> (text: Option<String>)
    requires
        context <= usize::MAX / 2,
    ensures
        text.deep_view() == checked_groups_text(
            groups.deep_view(),
            old_lines.deep_view(),
            new_lines.deep_view(),
            context,
        ),
{
    assert(old_lines.deep_view().len() == old_lines.len());
    if !check_diff(groups, old_lines, new_lines) {
        return None;
    }
    if !check_context(groups, old_lines, new_lines, context) {
        return None;
    }
    proof {
        let gs = groups.deep_view();
        assert forall|g: int, i: int| 0 <= g < gs.len() && 0 <= i < gs[g].len() implies in_bounds(
            #[trigger] gs[g][i],
            old_lines.len() as int,
            new_lines.len() as int,
        ) by {
            lemma_group_in_bounds(gs, old_lines.deep_view(), new_lines.deep_view(), g, i);
        }
    }
    Some(render_groups(old_lines, new_lines, groups))
}

/// Whether the characters of two texts are within the aligner's limit.
fn within_limit(old_chars: &Vec<char>, new_chars: &Vec<char>) -> (ok: bool)
    ensures
        ok == within_aligner_limit(old_chars@, new_chars@),
{
    let limit: usize = u32::MAX as usize;
    old_chars.len() <= limit && new_chars.len() <= limit - old_chars.len()
}

/// The diff of `old` and `new` with up to `context_lines` unchanged lines
/// around every change.
///
/// Equal texts give the empty diff.  `None` is returned only when the texts
/// are beyond the aligner's limit or the aligner's groups are no diff of
/// the lines of the two texts that keeps the context size.
pub fn diff_with_context(old: &str, new: &str, context_lines: usize) -> (text: Option<String>)
    requires
        context_lines <= usize::MAX / 2,
    ensures
        text.deep_view() == diff_of(old@, new@, context_lines),
        old@ == new@ ==> text.deep_view() == Some(Seq::<char>::empty()),
{
    let old_chars = to_chars(old);
    let new_chars = to_chars(new);
    if same_chars(&old_chars, &new_chars) {
        return Some(String::new());
    }
    if !within_limit(&old_chars, &new_chars) {
        return None;
    }
    let old_lines = split_chars(&old_chars);
    let new_lines = split_chars(&new_chars);
    let groups = line_groups(old, new, context_lines);
    render_checked(&old_lines, &new_lines, &groups, context_lines)
}

/// The diff of `old` and `new` in unified style with three lines of
/// context.  The file name takes no part in it.
pub fn diff_files(old: &str, new: &str, _filename: &str) -> (text: Option<String>)
    ensures
        text.deep_view() == diff_of(old@, new@, CONTEXT_LINES),
        old@ == new@ ==> text.deep_view() == Some(Seq::<char>::empty()),
{
    diff_with_context(old, new, CONTEXT_LINES)
}

/// The lines of `old`, the lines of `new` and the operations that align
/// them, if the texts have an alignment.
fn aligned_lines(old: &str, new: &str) -> (found: Option<(Vec<String>, Vec<String>, Vec<DiffOp>)>)
    ensures
        found is Some == alignment_outcome(old@, new@, aligned_ops(old@, new@)) is Some,
        found matches Some(f) ==> {
            &&& f.0.deep_view() == lines_of(old@)
            &&& f.1.deep_view() == lines_of(new@)
            &&& Some(f.2@) == alignment_outcome(old@, new@, aligned_ops(old@, new@))
            &&& is_alignment(f.2@, lines_of(old@), lines_of(new@))
        },
{
    let old_chars = to_chars(old);
    let new_chars = to_chars(new);
    let old_lines = split_chars(&old_chars);
    let new_lines = split_chars(&new_chars);
    if same_chars(&old_chars, &new_chars) {
        let mut ops: Vec<DiffOp> = Vec::new();
        if old_lines.len() > 0 {
            ops.push(DiffOp::Equal { old_index: 0, new_index: 0, len: old_lines.len() });
        }
        proof {
            lemma_equal_run_aligns(lines_of(old@));
            assert(ops@ =~= equal_run(lines_of(old@).len()));
        }
        return Some((old_lines, new_lines, ops));
    }
    if !within_limit(&old_chars, &new_chars) {
        return None;
    }
    let ops = line_ops(old, new);
    if !check_alignment(&ops, &old_lines, &new_lines) {
        return None;
    }
    Some((old_lines, new_lines, ops))
}

/// The alignment of the lines of `old` with the lines of `new`.
///
/// Replaying its changes gives back both texts.  Equal texts are aligned by
/// one run of equal lines.  `None` is returned only when the texts differ
/// and are beyond the aligner's limit, or the aligner's operations do not
/// align their lines.
pub fn align(old: &str, new: &str) -> (ops: Option<Vec<DiffOp>>)
    ensures
        ops.deep_view() == alignment_outcome(old@, new@, aligned_ops(old@, new@)),
        ops matches Some(v) ==> {
            &&& old_side(changes_of(v@, lines_of(old@), lines_of(new@))).flatten() == old@
            &&& new_side(changes_of(v@, lines_of(old@), lines_of(new@))).flatten() == new@
        },
{
    match aligned_lines(old, new) {
        None => None,
        Some((_, _, ops)) => {
            proof {
                lemma_alignment_replays(old@, new@, ops@);
                assert(ops.deep_view() =~= ops@);
            }
            Some(ops)
        },
    }
}

/// The changes by which the lines of `old` become the lines of `new`: every
/// line of either text under its tag, in the order of the alignment.
///
/// Replaying the changes gives back both texts.  `None` is returned only
/// when `align` returns `None`.
pub fn line_changes(old: &str, new: &str) -> (changes: Option<Vec<(ChangeTag, String)>>)
    ensures
        changes.deep_view() == changes_outcome(old@, new@, aligned_ops(old@, new@)),
        changes matches Some(c) ==> {
            &&& old_side(c.deep_view()).flatten() == old@
            &&& new_side(c.deep_view()).flatten() == new@
        },
{
    match aligned_lines(old, new) {
        None => None,
        Some((old_lines, new_lines, ops)) => {
            proof {
                lemma_alignment_replays(old@, new@, ops@);
                lemma_path_in_bounds(ops@, lines_of(old@), lines_of(new@), 0, 0);
            }
            Some(expand(&ops, &old_lines, &new_lines))
        },
    }
}

} // verus!

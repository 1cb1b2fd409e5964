//! The context that a diff shows around its changes: how many unchanged
//! lines a group starts and ends with, and how far two groups are apart.

use crate::groups::{
    are_groups, gap_before, groups_end, lemma_groups_end_within, lemma_groups_prefix,
};
use crate::ops::DiffOp;
use crate::paths::{lemma_path_sides, lemma_totals_grow, new_total, old_total};
use vstd::prelude::*;

verus! {

/// How many unchanged lines `group` starts with.
pub open spec fn leading(group: Seq<DiffOp>) -> int {
    if group.len() > 0 && group.first() is Equal {
        group.first().old_count()
    } else {
        0
    }
}

/// How many unchanged lines `group` ends with.
pub open spec fn trailing(group: Seq<DiffOp>) -> int {
    if group.len() > 0 && group.last() is Equal {
        group.last().old_count()
    } else {
        0
    }
}

/// `group` has the shape of a display group for the context size
/// `context`: it holds a change, no two runs of unchanged lines follow one
/// another, it starts and ends with at most `context` unchanged lines, and
/// between two of its changes lie at most twice as many.
pub open spec fn is_window(group: Seq<DiffOp>, context: int) -> bool {
    &&& exists|i: int| 0 <= i < group.len() && !(#[trigger] group[i] is Equal)
    &&& forall|i: int|
        0 <= i < group.len() - 1 ==> !(#[trigger] group[i] is Equal && group[i + 1] is Equal)
    &&& leading(group) <= context
    &&& trailing(group) <= context
    &&& forall|i: int|
        0 < i < group.len() - 1 && #[trigger] group[i] is Equal ==> group[i].old_count() <= 2
            * context
}

/// The groups keep the context size wherever lines are left out before a
/// group: each has the shape of a display group, and where lines are left
/// out before a group, the group starts with as many unchanged lines as the
/// context size says, and the group before it ends with as many.
pub open spec fn keeps_context_before(groups: Seq<Seq<DiffOp>>, context: int) -> bool
    decreases groups.len(),
{
    if groups.len() == 0 {
        true
    } else {
        let before = groups.drop_last();
        let group = groups.last();
        let at = groups_end(before);
        let gap = gap_before(group, at.0, at.1);
        &&& keeps_context_before(before, context)
        &&& is_window(group, context)
        &&& gap > 0 ==> leading(group) == context
        &&& gap > 0 && before.len() > 0 ==> trailing(before.last()) == context
    }
}

/// The groups of a diff of a text of `old_len` lines keep the context
/// size: wherever lines are left out, before a group or after the last,
/// as many unchanged lines are shown next to them as the context size says.
pub open spec fn keeps_context(groups: Seq<Seq<DiffOp>>, old_len: int, context: int) -> bool {
    &&& keeps_context_before(groups, context)
    &&& groups.len() > 0 && old_len - groups_end(groups).0 > 0 ==> trailing(groups.last())
        == context
}

/// The first groups of groups that keep the context size keep it.
pub proof fn lemma_context_prefix(groups: Seq<Seq<DiffOp>>, context: int, k: int)
    requires
        keeps_context_before(groups, context),
        0 <= k <= groups.len(),
    ensures
        keeps_context_before(groups.take(k), context),
    decreases groups.len(),
{
    if k == groups.len() {
        assert(groups.take(k) =~= groups);
    } else {
        assert(groups.drop_last().take(k) =~= groups.take(k));
        lemma_context_prefix(groups.drop_last(), context, k);
    }
}

/// Every group has the shape of a display group.
pub proof fn lemma_every_group_is_window(groups: Seq<Seq<DiffOp>>, context: int, g: int)
    requires
        keeps_context_before(groups, context),
        0 <= g < groups.len(),
    ensures
        is_window(groups[g], context),
{
    lemma_context_prefix(groups, context, g + 1);
    assert(groups.take(g + 1).last() == groups[g]);
}

/// Between the last change of a group and the first change of the next lie
/// more unchanged lines than twice the context size: were there fewer, the
/// two would be one group.
pub proof fn lemma_groups_far_apart(
    groups: Seq<Seq<DiffOp>>,
    old_lines: Seq<Seq<char>>,
    new_lines: Seq<Seq<char>>,
    context: int,
    g: int,
)
    requires
        are_groups(groups, old_lines, new_lines),
        keeps_context_before(groups, context),
        0 <= g < groups.len() - 1,
    ensures
        ({
            let at = groups_end(groups.take(g + 1));
            trailing(groups[g]) + gap_before(groups[g + 1], at.0, at.1) + leading(groups[g + 1])
                > 2 * context
        }),
{
    let upto = groups.take(g + 2);
    lemma_groups_prefix(groups, old_lines, new_lines, g + 2);
    lemma_context_prefix(groups, context, g + 2);
    assert(upto.drop_last() =~= groups.take(g + 1));
    assert(upto.last() == groups[g + 1]);
    assert(upto.drop_last().last() == groups[g]);
}

/// How many unchanged lines `group` starts with.
pub fn leading_of(group: &Vec<DiffOp>) -> (n: usize)
    ensures
        n == leading(group@),
{
    if group.len() == 0 {
        return 0;
    }
    match &group[0] {
        DiffOp::Equal { len, .. } => *len,
        _ => 0,
    }
}

/// How many unchanged lines `group` ends with.
pub fn trailing_of(group: &Vec<DiffOp>) -> (n: usize)
    ensures
        n == trailing(group@),
{
    if group.len() == 0 {
        return 0;
    }
    match &group[group.len() - 1] {
        DiffOp::Equal { len, .. } => *len,
        _ => 0,
    }
}

/// Whether `op` is a run of unchanged lines.
fn is_equal(op: &DiffOp) -> (yes: bool)
    ensures
        yes == (*op is Equal),
{
    match op {
        DiffOp::Equal { .. } => true,
        _ => false,
    }
}

/// Whether `group` has the shape of a display group for the context size
/// `context`.
pub fn check_window(group: &Vec<DiffOp>, context: usize) -> (ok: bool)
    requires
        context <= usize::MAX / 2,
    ensures
        ok == is_window(group@, context as int),
{
    if leading_of(group) > context || trailing_of(group) > context {
        return false;
    }
    let mut changed = false;
    let mut i: usize = 0;
    while i < group.len()
        invariant
            0 <= i <= group.len(),
            context <= usize::MAX / 2,
            changed == exists|j: int| 0 <= j < i && !(#[trigger] group@[j] is Equal),
            forall|j: int|
                0 <= j < i - 1 ==> !(#[trigger] group@[j] is Equal && group@[j + 1] is Equal),
            forall|j: int|
                0 < j < i && j < group.len() - 1 && #[trigger] group@[j] is Equal
                    ==> group@[j].old_count() <= 2 * context,
        decreases group.len() - i,
    {
        let op = &group[i];
        if is_equal(op) {
            if i > 0 && is_equal(&group[i - 1]) {
                assert(group@[i - 1] is Equal && group@[i - 1 + 1] is Equal);
                return false;
            }
            if i > 0 && i < group.len() - 1 && op.old_len() > 2 * context {
                return false;
            }
        } else {
            changed = true;
        }
        i += 1;
    }
    changed
}

/// How many old lines and how many new lines `group` covers.
fn covered(group: &Vec<DiffOp>) -> (totals: (usize, usize))
    requires
        old_total(group@) <= usize::MAX,
        new_total(group@) <= usize::MAX,
    ensures
        totals.0 == old_total(group@),
        totals.1 == new_total(group@),
{
    let mut old_sum: usize = 0;
    let mut new_sum: usize = 0;
    let mut i: usize = 0;
    assert(group@.take(0) =~= Seq::<DiffOp>::empty());
    while i < group.len()
        invariant
            0 <= i <= group.len(),
            old_total(group@) <= usize::MAX,
            new_total(group@) <= usize::MAX,
            old_sum == old_total(group@.take(i as int)),
            new_sum == new_total(group@.take(i as int)),
        decreases group.len() - i,
    {
        proof {
            let upto = group@.take(i + 1);
            assert(upto.drop_last() =~= group@.take(i as int));
            assert(upto.last() == group@[i as int]);
            lemma_totals_grow(group@, i + 1);
        }
        old_sum = old_sum + group[i].old_len();
        new_sum = new_sum + group[i].new_len();
        i += 1;
    }
    assert(group@.take(group.len() as int) =~= group@);
    (old_sum, new_sum)
}

/// Whether the display groups `groups` keep the context size.
pub fn check_context(
    groups: &Vec<Vec<DiffOp>>,
    old_lines: &Vec<String>,
    new_lines: &Vec<String>,
    context: usize,
) -> (ok: bool)
    requires
        are_groups(groups.deep_view(), old_lines.deep_view(), new_lines.deep_view()),
        context <= usize::MAX / 2,
    ensures
        ok == keeps_context(groups.deep_view(), old_lines.len() as int, context as int),
{
    let ghost gs = groups.deep_view();
    let ghost a = old_lines.deep_view();
    let ghost b = new_lines.deep_view();
    let mut old_at: usize = 0;
    let mut new_at: usize = 0;
    let mut g: usize = 0;
    assert(gs.take(0) =~= Seq::<Seq<DiffOp>>::empty());
    while g < groups.len()
        invariant
            0 <= g <= groups.len(),
            context <= usize::MAX / 2,
            gs == groups.deep_view(),
            a == old_lines.deep_view(),
            b == new_lines.deep_view(),
            are_groups(gs, a, b),
            old_at == groups_end(gs.take(g as int)).0,
            new_at == groups_end(gs.take(g as int)).1,
            old_at <= old_lines.len(),
            keeps_context_before(gs.take(g as int), context as int),
        decreases groups.len() - g,
    {
        let group = &groups[g];
        let ghost upto = gs.take(g + 1);
        let ghost gap_here = gap_before(group@, old_at as int, new_at as int);
        proof {
            assert(upto.drop_last() =~= gs.take(g as int));
            assert(upto.last() == group@);
            lemma_groups_prefix(gs, a, b, g + 1);
            lemma_groups_end_within(upto, a, b);
            lemma_path_sides(group@, a, b, old_at + gap_here, new_at + gap_here);
            assert(a.len() == old_lines.len() && b.len() == new_lines.len());
            if keeps_context_before(gs, context as int) {
                lemma_context_prefix(gs, context as int, g + 1);
            }
            if g > 0 {
                assert(upto.drop_last().last() == groups@[g - 1]@);
            }
        }
        let first = &group[0];
        let gap = match first {
            DiffOp::Insert { new_index, .. } => *new_index - new_at,
            _ => first.old_index() - old_at,
        };
        if !check_window(group, context) {
            return false;
        }
        if gap > 0 && leading_of(group) != context {
            return false;
        }
        if gap > 0 && g > 0 && trailing_of(&groups[g - 1]) != context {
            return false;
        }
        let totals = covered(group);
        old_at = old_at + gap + totals.0;
        new_at = new_at + gap + totals.1;
        g += 1;
    }
    assert(gs.take(groups.len() as int) =~= gs);
    if groups.len() == 0 {
        return true;
    }
    assert(gs.last() == groups@[groups.len() - 1]@);
    !(old_lines.len() - old_at > 0 && trailing_of(&groups[groups.len() - 1]) != context)
}

} // verus!

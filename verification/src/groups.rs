//! Display groups: the parts of an alignment that a diff shows.  Between
//! two groups, before the first and after the last, stretches of lines that
//! are equal in both texts are left out.

use crate::lines::same_lines;
use crate::ops::{
    changes_of, in_bounds, lemma_sides_concat, lemma_tagged_sides, new_side, old_side, tagged,
    ChangeTag, DiffOp,
};
use crate::paths::{
    is_alignment, is_path, lemma_path_sides, lemma_path_step, lemma_totals_grow, new_total,
    old_total, path_end,
};
use vstd::prelude::*;

verus! {

/// How many lines are left out before `group`, seen from the position
/// `(old_at, new_at)` where what came before it ends: the distance to the
/// first line that the group's first operation covers.
pub open spec fn gap_before(group: Seq<DiffOp>, old_at: int, new_at: int) -> int {
    if group.len() == 0 {
        0
    } else if group[0] is Insert {
        group[0].new_start() - new_at
    } else {
        group[0].old_start() - old_at
    }
}

/// Where `groups` end in both texts: each group starts after the lines left
/// out before it and ends after the lines that its operations cover.
pub open spec fn groups_end(groups: Seq<Seq<DiffOp>>) -> (int, int)
    decreases groups.len(),
{
    if groups.len() == 0 {
        (0, 0)
    } else {
        let at = groups_end(groups.drop_last());
        let group = groups.last();
        let gap = gap_before(group, at.0, at.1);
        (at.0 + gap + old_total(group), at.1 + gap + new_total(group))
    }
}

/// From the position `(old_at, new_at)` on, `gap` lines of the old text
/// equal `gap` lines of the new text.
pub open spec fn is_gap(
    old_lines: Seq<Seq<char>>,
    new_lines: Seq<Seq<char>>,
    old_at: int,
    new_at: int,
    gap: int,
) -> bool {
    &&& 0 <= gap
    &&& 0 <= old_at
    &&& 0 <= new_at
    &&& old_at + gap <= old_lines.len()
    &&& new_at + gap <= new_lines.len()
    &&& old_lines.subrange(old_at, old_at + gap) == new_lines.subrange(new_at, new_at + gap)
}

/// `groups` are display groups over the two line sequences: each is a path
/// that is not empty, the lines left out before each are equal in both
/// texts, and between two groups at least one line is left out.
pub open spec fn are_groups(
    groups: Seq<Seq<DiffOp>>,
    old_lines: Seq<Seq<char>>,
    new_lines: Seq<Seq<char>>,
) -> bool
    decreases groups.len(),
{
    if groups.len() == 0 {
        true
    } else {
        let before = groups.drop_last();
        let group = groups.last();
        let at = groups_end(before);
        let gap = gap_before(group, at.0, at.1);
        &&& are_groups(before, old_lines, new_lines)
        &&& group.len() > 0
        &&& before.len() > 0 ==> gap >= 1
        &&& is_gap(old_lines, new_lines, at.0, at.1, gap)
        &&& is_path(group, old_lines, new_lines, at.0 + gap, at.1 + gap)
    }
}

/// `groups` are a diff of the two line sequences: they are display groups,
/// and the lines left out after the last of them are equal in both texts
/// and run to the end of both.
pub open spec fn is_diff(
    groups: Seq<Seq<DiffOp>>,
    old_lines: Seq<Seq<char>>,
    new_lines: Seq<Seq<char>>,
) -> bool {
    let at = groups_end(groups);
    &&& are_groups(groups, old_lines, new_lines)
    &&& old_lines.len() - at.0 == new_lines.len() - at.1
    &&& is_gap(old_lines, new_lines, at.0, at.1, old_lines.len() - at.0)
}

/// The changes of `groups` with the lines left out before each group put
/// back as equal lines.
pub open spec fn changes_with_gaps(
    groups: Seq<Seq<DiffOp>>,
    old_lines: Seq<Seq<char>>,
    new_lines: Seq<Seq<char>>,
) -> Seq<(ChangeTag, Seq<char>)>
    decreases groups.len(),
{
    if groups.len() == 0 {
        Seq::empty()
    } else {
        let before = groups.drop_last();
        let group = groups.last();
        let at = groups_end(before);
        let gap = gap_before(group, at.0, at.1);
        changes_with_gaps(before, old_lines, new_lines) + tagged(
            ChangeTag::Equal,
            old_lines.subrange(at.0, at.0 + gap),
        ) + changes_of(group, old_lines, new_lines)
    }
}

/// All the changes that a diff stands for: those of its groups and, as
/// equal lines, all the lines that it leaves out.
pub open spec fn all_changes(
    groups: Seq<Seq<DiffOp>>,
    old_lines: Seq<Seq<char>>,
    new_lines: Seq<Seq<char>>,
) -> Seq<(ChangeTag, Seq<char>)> {
    changes_with_gaps(groups, old_lines, new_lines) + tagged(
        ChangeTag::Equal,
        old_lines.skip(groups_end(groups).0),
    )
}

/// The first groups of display groups are display groups.
pub proof fn lemma_groups_prefix(
    groups: Seq<Seq<DiffOp>>,
    old_lines: Seq<Seq<char>>,
    new_lines: Seq<Seq<char>>,
    k: int,
)
    requires
        are_groups(groups, old_lines, new_lines),
        0 <= k <= groups.len(),
    ensures
        are_groups(groups.take(k), old_lines, new_lines),
    decreases groups.len(),
{
    if k == groups.len() {
        assert(groups.take(k) =~= groups);
    } else {
        assert(groups.drop_last().take(k) =~= groups.take(k));
        lemma_groups_prefix(groups.drop_last(), old_lines, new_lines, k);
    }
}

/// Display groups end within the two texts.
pub proof fn lemma_groups_end_within(
    groups: Seq<Seq<DiffOp>>,
    old_lines: Seq<Seq<char>>,
    new_lines: Seq<Seq<char>>,
)
    requires
        are_groups(groups, old_lines, new_lines),
    ensures
        0 <= groups_end(groups).0 <= old_lines.len(),
        0 <= groups_end(groups).1 <= new_lines.len(),
    decreases groups.len(),
{
    if groups.len() > 0 {
        let before = groups.drop_last();
        let group = groups.last();
        let at = groups_end(before);
        let gap = gap_before(group, at.0, at.1);
        lemma_groups_end_within(before, old_lines, new_lines);
        lemma_path_sides(group, old_lines, new_lines, at.0 + gap, at.1 + gap);
    }
}

/// What a group covers lies within the two texts, and what a group that
/// another follows covers stops short of the last line of either text.
pub proof fn lemma_group_in_bounds(
    groups: Seq<Seq<DiffOp>>,
    old_lines: Seq<Seq<char>>,
    new_lines: Seq<Seq<char>>,
    g: int,
    i: int,
)
    requires
        are_groups(groups, old_lines, new_lines),
        0 <= g < groups.len(),
        0 <= i < groups[g].len(),
    ensures
        in_bounds(groups[g][i], old_lines.len() as int, new_lines.len() as int),
        g < groups.len() - 1 ==> in_bounds(
            groups[g][i],
            old_lines.len() - 1,
            new_lines.len() - 1,
        ),
{
    let upto = groups.take(g + 1);
    lemma_groups_prefix(groups, old_lines, new_lines, g + 1);
    assert(upto.last() == groups[g]);
    let group = groups[g];
    let at = groups_end(upto.drop_last());
    let gap = gap_before(group, at.0, at.1);
    lemma_path_step(group, old_lines, new_lines, at.0 + gap, at.1 + gap, i);
    lemma_totals_grow(group, i + 1);
    assert(group.take(i + 1).drop_last() =~= group.take(i));
    assert(group.take(i + 1).last() == group[i]);
    if g < groups.len() - 1 {
        let next = groups.take(g + 2);
        lemma_groups_prefix(groups, old_lines, new_lines, g + 2);
        assert(next.drop_last() =~= upto);
        assert(next.last() == groups[g + 1]);
    }
}

/// Replaying the changes of display groups, with the lines left out put
/// back, gives on each side the lines up to where the groups end.
pub proof fn lemma_gaps_sides(
    groups: Seq<Seq<DiffOp>>,
    old_lines: Seq<Seq<char>>,
    new_lines: Seq<Seq<char>>,
)
    requires
        are_groups(groups, old_lines, new_lines),
    ensures
        old_side(changes_with_gaps(groups, old_lines, new_lines)) == old_lines.take(
            groups_end(groups).0,
        ),
        new_side(changes_with_gaps(groups, old_lines, new_lines)) == new_lines.take(
            groups_end(groups).1,
        ),
    decreases groups.len(),
{
    if groups.len() == 0 {
        reveal(Seq::filter);
        let none = Seq::<(ChangeTag, Seq<char>)>::empty();
        assert(old_side(none) =~= old_lines.take(0));
        assert(new_side(none) =~= new_lines.take(0));
    } else {
        let before = groups.drop_last();
        let group = groups.last();
        let at = groups_end(before);
        let gap = gap_before(group, at.0, at.1);
        let left_out = tagged(ChangeTag::Equal, old_lines.subrange(at.0, at.0 + gap));
        let shown = changes_of(group, old_lines, new_lines);
        let so_far = changes_with_gaps(before, old_lines, new_lines);
        lemma_gaps_sides(before, old_lines, new_lines);
        lemma_groups_end_within(before, old_lines, new_lines);
        lemma_tagged_sides(ChangeTag::Equal, old_lines.subrange(at.0, at.0 + gap));
        lemma_path_sides(group, old_lines, new_lines, at.0 + gap, at.1 + gap);
        lemma_sides_concat(so_far, left_out);
        lemma_sides_concat(so_far + left_out, shown);
        let end = groups_end(groups);
        assert(old_lines.take(at.0) + old_lines.subrange(at.0, at.0 + gap) + old_lines.subrange(
            at.0 + gap,
            end.0,
        ) =~= old_lines.take(end.0));
        assert(new_lines.take(at.1) + new_lines.subrange(at.1, at.1 + gap) + new_lines.subrange(
            at.1 + gap,
            end.1,
        ) =~= new_lines.take(end.1));
    }
}

/// Replaying all the changes that a diff stands for gives back both line
/// sequences: what the diff shows and what it leaves out is all there is
/// to the two texts.
pub proof fn lemma_diff_reconstructs(
    groups: Seq<Seq<DiffOp>>,
    old_lines: Seq<Seq<char>>,
    new_lines: Seq<Seq<char>>,
)
    requires
        is_diff(groups, old_lines, new_lines),
    ensures
        old_side(all_changes(groups, old_lines, new_lines)) == old_lines,
        new_side(all_changes(groups, old_lines, new_lines)) == new_lines,
{
    let at = groups_end(groups);
    let rest = old_lines.skip(at.0);
    lemma_gaps_sides(groups, old_lines, new_lines);
    lemma_groups_end_within(groups, old_lines, new_lines);
    lemma_tagged_sides(ChangeTag::Equal, rest);
    lemma_sides_concat(
        changes_with_gaps(groups, old_lines, new_lines),
        tagged(ChangeTag::Equal, rest),
    );
    assert(rest =~= old_lines.subrange(at.0, at.0 + (old_lines.len() - at.0)));
    assert(rest =~= new_lines.skip(at.1));
    assert(old_lines.take(at.0) + rest =~= old_lines);
    assert(new_lines.take(at.1) + rest =~= new_lines);
}

/// A diff of two line sequences of which one is empty and the other is not
/// is a single group that aligns the two.
pub proof fn lemma_diff_of_empty_side(
    groups: Seq<Seq<DiffOp>>,
    old_lines: Seq<Seq<char>>,
    new_lines: Seq<Seq<char>>,
)
    requires
        is_diff(groups, old_lines, new_lines),
        old_lines.len() == 0 || new_lines.len() == 0,
        old_lines.len() != new_lines.len(),
    ensures
        groups.len() == 1,
        is_alignment(groups[0], old_lines, new_lines),
{
    if groups.len() >= 2 {
        let two = groups.take(2);
        lemma_groups_prefix(groups, old_lines, new_lines, 2);
        lemma_groups_end_within(two.drop_last(), old_lines, new_lines);
    }
    let none = groups.drop_last();
    assert(none =~= Seq::<Seq<DiffOp>>::empty());
    let group = groups.last();
    lemma_path_sides(group, old_lines, new_lines, 0, 0);
}

/// Whether from the position `(old_at, new_at)` on `gap` lines of the old
/// text equal `gap` lines of the new text.
fn check_gap(
    old_lines: &Vec<String>,
    new_lines: &Vec<String>,
    old_at: usize,
    new_at: usize,
    gap: usize,
) -> (ok: bool)
    ensures
        ok == is_gap(
            old_lines.deep_view(),
            new_lines.deep_view(),
            old_at as int,
            new_at as int,
            gap as int,
        ),
{
    assert(old_lines.deep_view().len() == old_lines.len());
    assert(new_lines.deep_view().len() == new_lines.len());
    if old_at > old_lines.len() || gap > old_lines.len() - old_at {
        return false;
    }
    if new_at > new_lines.len() || gap > new_lines.len() - new_at {
        return false;
    }
    same_lines(old_lines, old_at, new_lines, new_at, gap)
}

/// Where `groups` end in both texts if they are display groups over the two
/// line sequences; `None` if they are not.
pub fn groups_end_checked(
    groups: &Vec<Vec<DiffOp>>,
    old_lines: &Vec<String>,
    new_lines: &Vec<String>,
) -> (end: Option<(usize, usize)>)
    ensures
        end is Some == are_groups(
            groups.deep_view(),
            old_lines.deep_view(),
            new_lines.deep_view(),
        ),
        end matches Some(e) ==> e.0 == groups_end(groups.deep_view()).0 && e.1 == groups_end(
            groups.deep_view(),
        ).1,
{
    let ghost gs = groups.deep_view();
    let ghost a = old_lines.deep_view();
    let ghost b = new_lines.deep_view();
    let mut old_at: usize = 0;
    let mut new_at: usize = 0;
    let mut g: usize = 0;
    assert(gs.take(0) =~= Seq::<Seq<DiffOp>>::empty());
    while g < groups.len()
        invariant
            0 <= g <= groups.len(),
            gs == groups.deep_view(),
            a == old_lines.deep_view(),
            b == new_lines.deep_view(),
            are_groups(gs.take(g as int), a, b),
            old_at == groups_end(gs.take(g as int)).0,
            new_at == groups_end(gs.take(g as int)).1,
        decreases groups.len() - g,
    {
        let group = &groups[g];
        let ghost upto = gs.take(g + 1);
        proof {
            assert(upto.drop_last() =~= gs.take(g as int));
            assert(upto.last() == group@);
            if are_groups(gs, a, b) {
                lemma_groups_prefix(gs, a, b, g + 1);
            }
        }
        if group.len() == 0 {
            return None;
        }
        let first = &group[0];
        let start = match first {
            DiffOp::Insert { new_index, .. } => *new_index,
            _ => first.old_index(),
        };
        let at = match first {
            DiffOp::Insert { .. } => new_at,
            _ => old_at,
        };
        if start < at || (g > 0 && start == at) {
            return None;
        }
        let gap = start - at;
        assert(gap == gap_before(group@, old_at as int, new_at as int));
        if !check_gap(old_lines, new_lines, old_at, new_at, gap) {
            return None;
        }
        assert(a.len() == old_lines.len() && b.len() == new_lines.len());
        match path_end(group, old_lines, new_lines, old_at + gap, new_at + gap) {
            None => {
                return None;
            },
            Some(end) => {
                old_at = end.0;
                new_at = end.1;
            },
        }
        g += 1;
    }
    assert(gs.take(groups.len() as int) =~= gs);
    Some((old_at, new_at))
}

/// Whether `groups` are a diff of the two line sequences.
pub fn check_diff(groups: &Vec<Vec<DiffOp>>, old_lines: &Vec<String>, new_lines: &Vec<String>) -> (ok:
    bool)
    ensures
        ok == is_diff(groups.deep_view(), old_lines.deep_view(), new_lines.deep_view()),
{
    assert(old_lines.deep_view().len() == old_lines.len());
    assert(new_lines.deep_view().len() == new_lines.len());
    match groups_end_checked(groups, old_lines, new_lines) {
        None => false,
        Some((old_at, new_at)) => {
            proof {
                lemma_groups_end_within(
                    groups.deep_view(),
                    old_lines.deep_view(),
                    new_lines.deep_view(),
                );
            }
            let old_rest = old_lines.len() - old_at;
            let new_rest = new_lines.len() - new_at;
            old_rest == new_rest && check_gap(old_lines, new_lines, old_at, new_at, old_rest)
        },
    }
}

} // verus!

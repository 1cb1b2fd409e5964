//! Paths through two line sequences: operations that follow one another,
//! each taking up where the lines covered so far end.  An alignment is a
//! path from the start of both sequences to the end of both.

use crate::lines::same_lines;
use crate::ops::{
    changes_of, in_bounds, lemma_changes_last, lemma_sides_concat, lemma_sides_of_one_tag,
    lemma_tagged_sides, new_part, new_side, old_part, old_side, op_changes, tagged, ChangeTag,
    DiffOp,
};
use vstd::prelude::*;

verus! {

/// How many old lines `ops` cover together.
pub open spec fn old_total(ops: Seq<DiffOp>) -> int
    decreases ops.len(),
{
    if ops.len() == 0 {
        0
    } else {
        old_total(ops.drop_last()) + ops.last().old_count()
    }
}

/// How many new lines `ops` cover together.
pub open spec fn new_total(ops: Seq<DiffOp>) -> int
    decreases ops.len(),
{
    if ops.len() == 0 {
        0
    } else {
        new_total(ops.drop_last()) + ops.last().new_count()
    }
}

/// `op` is a step from the position `(old_at, new_at)`: the lines it covers
/// start there, they lie within the two sequences, and where it claims
/// equal lines the lines are equal.  Where an insertion says it stands in
/// the old text is of no account, nor where a deletion says it stands in
/// the new text.
pub open spec fn step_fits(
    op: DiffOp,
    old_lines: Seq<Seq<char>>,
    new_lines: Seq<Seq<char>>,
    old_at: int,
    new_at: int,
) -> bool {
    &&& 0 <= old_at
    &&& 0 <= new_at
    &&& old_at + op.old_count() <= old_lines.len()
    &&& new_at + op.new_count() <= new_lines.len()
    &&& !(op is Insert) ==> op.old_start() == old_at
    &&& !(op is Delete) ==> op.new_start() == new_at
    &&& op is Equal ==> old_lines.subrange(old_at, old_at + op.old_count()) == new_lines.subrange(
        new_at,
        new_at + op.new_count(),
    )
}

/// `ops` is a path from the position `(old_from, new_from)`: every
/// operation is a step from where the operations before it end.
pub open spec fn is_path(
    ops: Seq<DiffOp>,
    old_lines: Seq<Seq<char>>,
    new_lines: Seq<Seq<char>>,
    old_from: int,
    new_from: int,
) -> bool
    decreases ops.len(),
{
    if ops.len() == 0 {
        true
    } else {
        let before = ops.drop_last();
        &&& is_path(before, old_lines, new_lines, old_from, new_from)
        &&& step_fits(
            ops.last(),
            old_lines,
            new_lines,
            old_from + old_total(before),
            new_from + new_total(before),
        )
    }
}

/// `ops` aligns the two line sequences: it is a path from the start of both
/// that covers all lines of both.
pub open spec fn is_alignment(
    ops: Seq<DiffOp>,
    old_lines: Seq<Seq<char>>,
    new_lines: Seq<Seq<char>>,
) -> bool {
    &&& is_path(ops, old_lines, new_lines, 0, 0)
    &&& old_total(ops) == old_lines.len()
    &&& new_total(ops) == new_lines.len()
}

/// Operations cover no negative number of lines.
pub proof fn lemma_totals_grow(ops: Seq<DiffOp>, k: int)
    requires
        0 <= k <= ops.len(),
    ensures
        0 <= old_total(ops.take(k)) <= old_total(ops),
        0 <= new_total(ops.take(k)) <= new_total(ops),
    decreases ops.len(),
{
    if k == ops.len() {
        assert(ops.take(k) =~= ops);
        if k > 0 {
            lemma_totals_grow(ops.drop_last(), k - 1);
        }
    } else {
        assert(ops.drop_last().take(k) =~= ops.take(k));
        lemma_totals_grow(ops.drop_last(), k);
    }
}

/// The operations of a path up to any point are a path from the same position.
pub proof fn lemma_path_prefix(
    ops: Seq<DiffOp>,
    old_lines: Seq<Seq<char>>,
    new_lines: Seq<Seq<char>>,
    old_from: int,
    new_from: int,
    k: int,
)
    requires
        is_path(ops, old_lines, new_lines, old_from, new_from),
        0 <= k <= ops.len(),
    ensures
        is_path(ops.take(k), old_lines, new_lines, old_from, new_from),
    decreases ops.len(),
{
    if k == ops.len() {
        assert(ops.take(k) =~= ops);
    } else {
        assert(ops.drop_last().take(k) =~= ops.take(k));
        lemma_path_prefix(ops.drop_last(), old_lines, new_lines, old_from, new_from, k);
    }
}

/// Every operation of a path is a step from where the operations before it end.
pub proof fn lemma_path_step(
    ops: Seq<DiffOp>,
    old_lines: Seq<Seq<char>>,
    new_lines: Seq<Seq<char>>,
    old_from: int,
    new_from: int,
    k: int,
)
    requires
        is_path(ops, old_lines, new_lines, old_from, new_from),
        0 <= k < ops.len(),
    ensures
        step_fits(
            ops[k],
            old_lines,
            new_lines,
            old_from + old_total(ops.take(k)),
            new_from + new_total(ops.take(k)),
        ),
{
    lemma_path_prefix(ops, old_lines, new_lines, old_from, new_from, k + 1);
    let upto = ops.take(k + 1);
    assert(upto.drop_last() =~= ops.take(k));
    assert(upto.last() == ops[k]);
}

/// What the operations of a path cover lies within the two sequences.
pub proof fn lemma_path_in_bounds(
    ops: Seq<DiffOp>,
    old_lines: Seq<Seq<char>>,
    new_lines: Seq<Seq<char>>,
    old_from: int,
    new_from: int,
)
    requires
        is_path(ops, old_lines, new_lines, old_from, new_from),
    ensures
        forall|k: int|
            0 <= k < ops.len() ==> in_bounds(
                #[trigger] ops[k],
                old_lines.len() as int,
                new_lines.len() as int,
            ),
{
    assert forall|k: int| 0 <= k < ops.len() implies in_bounds(
        #[trigger] ops[k],
        old_lines.len() as int,
        new_lines.len() as int,
    ) by {
        lemma_path_step(ops, old_lines, new_lines, old_from, new_from, k);
    }
}

/// Replaying the changes of a step gives the old lines and the new lines
/// that the step covers.
pub proof fn lemma_step_sides(
    op: DiffOp,
    old_lines: Seq<Seq<char>>,
    new_lines: Seq<Seq<char>>,
    old_at: int,
    new_at: int,
)
    requires
        step_fits(op, old_lines, new_lines, old_at, new_at),
    ensures
        old_side(op_changes(op, old_lines, new_lines)) == old_lines.subrange(
            old_at,
            old_at + op.old_count(),
        ),
        new_side(op_changes(op, old_lines, new_lines)) == new_lines.subrange(
            new_at,
            new_at + op.new_count(),
        ),
{
    let old_covered = old_part(op, old_lines);
    let new_covered = new_part(op, new_lines);
    let none = Seq::<Seq<char>>::empty();
    lemma_tagged_sides(ChangeTag::Equal, old_covered);
    lemma_tagged_sides(ChangeTag::Delete, old_covered);
    lemma_tagged_sides(ChangeTag::Insert, new_covered);
    assert(old_covered =~= old_lines.subrange(old_at, old_at + op.old_count()));
    assert(new_covered =~= new_lines.subrange(new_at, new_at + op.new_count()));
    if op is Replace {
        lemma_sides_concat(
            tagged(ChangeTag::Delete, old_covered),
            tagged(ChangeTag::Insert, new_covered),
        );
        assert(old_covered + none =~= old_covered);
        assert(none + new_covered =~= new_covered);
    }
}

/// Replaying the changes of a path gives, on each side, the stretch of
/// lines from where the path starts to where it ends.
pub proof fn lemma_path_sides(
    ops: Seq<DiffOp>,
    old_lines: Seq<Seq<char>>,
    new_lines: Seq<Seq<char>>,
    old_from: int,
    new_from: int,
)
    requires
        is_path(ops, old_lines, new_lines, old_from, new_from),
        0 <= old_from <= old_lines.len(),
        0 <= new_from <= new_lines.len(),
    ensures
        0 <= old_total(ops),
        0 <= new_total(ops),
        old_from + old_total(ops) <= old_lines.len(),
        new_from + new_total(ops) <= new_lines.len(),
        old_side(changes_of(ops, old_lines, new_lines)) == old_lines.subrange(
            old_from,
            old_from + old_total(ops),
        ),
        new_side(changes_of(ops, old_lines, new_lines)) == new_lines.subrange(
            new_from,
            new_from + new_total(ops),
        ),
    decreases ops.len(),
{
    if ops.len() == 0 {
        reveal(Seq::filter);
        assert(changes_of(ops, old_lines, new_lines) =~= Seq::<(ChangeTag, Seq<char>)>::empty());
        assert(old_side(changes_of(ops, old_lines, new_lines)) =~= old_lines.subrange(
            old_from,
            old_from,
        ));
        assert(new_side(changes_of(ops, old_lines, new_lines)) =~= new_lines.subrange(
            new_from,
            new_from,
        ));
    } else {
        let before = ops.drop_last();
        let last = ops.last();
        let old_at = old_from + old_total(before);
        let new_at = new_from + new_total(before);
        lemma_path_sides(before, old_lines, new_lines, old_from, new_from);
        lemma_step_sides(last, old_lines, new_lines, old_at, new_at);
        lemma_changes_last(ops, old_lines, new_lines);
        lemma_sides_concat(
            changes_of(before, old_lines, new_lines),
            op_changes(last, old_lines, new_lines),
        );
        assert(old_lines.subrange(old_from, old_at) + old_lines.subrange(
            old_at,
            old_at + last.old_count(),
        ) =~= old_lines.subrange(old_from, old_from + old_total(ops)));
        assert(new_lines.subrange(new_from, new_at) + new_lines.subrange(
            new_at,
            new_at + last.new_count(),
        ) =~= new_lines.subrange(new_from, new_from + new_total(ops)));
    }
}

/// Replaying the changes of an alignment gives back both line sequences:
/// the equal and deleted lines are the old lines, the equal and inserted
/// lines are the new lines.
pub proof fn lemma_alignment_reconstructs(
    ops: Seq<DiffOp>,
    old_lines: Seq<Seq<char>>,
    new_lines: Seq<Seq<char>>,
)
    requires
        is_alignment(ops, old_lines, new_lines),
    ensures
        old_side(changes_of(ops, old_lines, new_lines)) == old_lines,
        new_side(changes_of(ops, old_lines, new_lines)) == new_lines,
{
    lemma_path_sides(ops, old_lines, new_lines, 0, 0);
    assert(old_lines.subrange(0, old_lines.len() as int) =~= old_lines);
    assert(new_lines.subrange(0, new_lines.len() as int) =~= new_lines);
}

/// An alignment of no old lines with the new lines holds inserted lines
/// only: all the new lines, in order.
pub proof fn lemma_alignment_of_empty_old(ops: Seq<DiffOp>, new_lines: Seq<Seq<char>>)
    requires
        is_alignment(ops, Seq::<Seq<char>>::empty(), new_lines),
    ensures
        changes_of(ops, Seq::<Seq<char>>::empty(), new_lines) == tagged(
            ChangeTag::Insert,
            new_lines,
        ),
{
    broadcast use Seq::lemma_filter_contains;

    let changes = changes_of(ops, Seq::<Seq<char>>::empty(), new_lines);
    lemma_alignment_reconstructs(ops, Seq::<Seq<char>>::empty(), new_lines);
    assert forall|i: int| 0 <= i < changes.len() implies (#[trigger] changes[i]).0
        == ChangeTag::Insert by {
        if changes[i].0 != ChangeTag::Insert {
            assert(changes.filter(|c: (ChangeTag, Seq<char>)| c.0 != ChangeTag::Insert).contains(
                changes[i],
            ));
            assert(old_side(changes).len() == 0);
        }
    }
    lemma_sides_of_one_tag(changes);
    assert(changes =~= tagged(ChangeTag::Insert, new_lines));
}

/// An alignment of the old lines with no new lines holds deleted lines
/// only: all the old lines, in order.
pub proof fn lemma_alignment_of_empty_new(ops: Seq<DiffOp>, old_lines: Seq<Seq<char>>)
    requires
        is_alignment(ops, old_lines, Seq::<Seq<char>>::empty()),
    ensures
        changes_of(ops, old_lines, Seq::<Seq<char>>::empty()) == tagged(
            ChangeTag::Delete,
            old_lines,
        ),
{
    broadcast use Seq::lemma_filter_contains;

    let changes = changes_of(ops, old_lines, Seq::<Seq<char>>::empty());
    lemma_alignment_reconstructs(ops, old_lines, Seq::<Seq<char>>::empty());
    assert forall|i: int| 0 <= i < changes.len() implies (#[trigger] changes[i]).0
        == ChangeTag::Delete by {
        if changes[i].0 != ChangeTag::Delete {
            assert(changes.filter(|c: (ChangeTag, Seq<char>)| c.0 != ChangeTag::Delete).contains(
                changes[i],
            ));
            assert(new_side(changes).len() == 0);
        }
    }
    lemma_sides_of_one_tag(changes);
    assert(changes =~= tagged(ChangeTag::Delete, old_lines));
}

/// Whether `op` is a step from the position `(old_at, new_at)`.
pub fn fits_at(
    op: &DiffOp,
    old_lines: &Vec<String>,
    new_lines: &Vec<String>,
    old_at: usize,
    new_at: usize,
) -> (ok: bool)
    ensures
        ok == step_fits(
            *op,
            old_lines.deep_view(),
            new_lines.deep_view(),
            old_at as int,
            new_at as int,
        ),
{
    if old_at > old_lines.len() || op.old_len() > old_lines.len() - old_at {
        return false;
    }
    if new_at > new_lines.len() || op.new_len() > new_lines.len() - new_at {
        return false;
    }
    match op {
        DiffOp::Equal { old_index, new_index, len } => *old_index == old_at && *new_index == new_at
            && same_lines(old_lines, old_at, new_lines, new_at, *len),
        DiffOp::Delete { old_index, .. } => *old_index == old_at,
        DiffOp::Insert { new_index, .. } => *new_index == new_at,
        DiffOp::Replace { old_index, new_index, .. } => *old_index == old_at && *new_index
            == new_at,
    }
}

/// Where `ops` ends if it is a path from `(old_from, new_from)`; `None` if
/// it is no such path.
pub fn path_end(
    ops: &Vec<DiffOp>,
    old_lines: &Vec<String>,
    new_lines: &Vec<String>,
    old_from: usize,
    new_from: usize,
) -> (end: Option<(usize, usize)>)
    ensures
        end is Some == is_path(
            ops@,
            old_lines.deep_view(),
            new_lines.deep_view(),
            old_from as int,
            new_from as int,
        ),
        end matches Some(e) ==> e.0 == old_from + old_total(ops@) && e.1 == new_from + new_total(
            ops@,
        ),
{
    let ghost a = old_lines.deep_view();
    let ghost b = new_lines.deep_view();
    let mut old_at: usize = old_from;
    let mut new_at: usize = new_from;
    let mut k: usize = 0;
    assert(ops@.take(0) =~= Seq::<DiffOp>::empty());
    while k < ops.len()
        invariant
            0 <= k <= ops.len(),
            a == old_lines.deep_view(),
            b == new_lines.deep_view(),
            is_path(ops@.take(k as int), a, b, old_from as int, new_from as int),
            old_at == old_from + old_total(ops@.take(k as int)),
            new_at == new_from + new_total(ops@.take(k as int)),
        decreases ops.len() - k,
    {
        let op = &ops[k];
        let ghost upto = ops@.take(k + 1);
        proof {
            assert(upto.drop_last() =~= ops@.take(k as int));
            assert(upto.last() == ops@[k as int]);
        }
        if !fits_at(op, old_lines, new_lines, old_at, new_at) {
            proof {
                if is_path(ops@, a, b, old_from as int, new_from as int) {
                    lemma_path_prefix(ops@, a, b, old_from as int, new_from as int, k + 1);
                }
            }
            return None;
        }
        assert(a.len() == old_lines.len() && b.len() == new_lines.len());
        old_at = old_at + op.old_len();
        new_at = new_at + op.new_len();
        k += 1;
    }
    assert(ops@.take(ops.len() as int) =~= ops@);
    Some((old_at, new_at))
}

/// Whether `ops` aligns the two line sequences.
pub fn check_alignment(ops: &Vec<DiffOp>, old_lines: &Vec<String>, new_lines: &Vec<String>) -> (ok:
    bool)
    ensures
        ok == is_alignment(ops@, old_lines.deep_view(), new_lines.deep_view()),
{
    assert(old_lines.deep_view().len() == old_lines.len());
    assert(new_lines.deep_view().len() == new_lines.len());
    match path_end(ops, old_lines, new_lines, 0, 0) {
        Some((old_end, new_end)) => old_end == old_lines.len() && new_end == new_lines.len(),
        None => false,
    }
}

} // verus!

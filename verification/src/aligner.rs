//! The line aligner.  The alignment of two texts and its grouping into
//! display groups are computed by the `similar` crate; this module hands
//! both out as plain operations and gives each result a name.

use crate::ops::DiffOp;
use vstd::prelude::*;

verus! {

/// The operations by which the aligner sets the lines of `old` against the
/// lines of `new`.
pub uninterp spec fn aligned_ops(old: Seq<char>, new: Seq<char>) -> Seq<DiffOp>;

/// The display groups that the aligner forms for `old` and `new` with up to
/// `context` unchanged lines around every change.
pub uninterp spec fn aligned_groups(old: Seq<char>, new: Seq<char>, context: usize) -> Seq<
    Seq<DiffOp>,
>;

/// The most characters that two texts handed to the aligner may have
/// together: it numbers the distinct lines of larger inputs with `u32`.
pub open spec fn within_aligner_limit(old: Seq<char>, new: Seq<char>) -> bool {
    old.len() + new.len() <= u32::MAX
}

/// `similar::TextDiff::from_lines(old, new).ops()`, each operation copied
/// field by field.  Nothing is claimed of the operations but that they
/// depend on the two texts alone.  Within the limit `similar` does not run
/// out of numbers for the distinct lines.
#[verifier::external_body]
pub(crate) fn line_ops(old: &str, new: &str) -> (ops: Vec<DiffOp>)
    requires
        within_aligner_limit(old@, new@),
    ensures
        ops@ == aligned_ops(old@, new@),
{
    let diff = similar::TextDiff::from_lines(old, new);
    diff.ops().iter().map(|op| match *op {
        similar::DiffOp::Equal { old_index, new_index, len } => DiffOp::Equal { old_index, new_index, len },
        similar::DiffOp::Delete { old_index, old_len, new_index } => DiffOp::Delete { old_index, old_len, new_index },
        similar::DiffOp::Insert { old_index, new_index, new_len } => DiffOp::Insert { old_index, new_index, new_len },
        similar::DiffOp::Replace { old_index, old_len, new_index, new_len } => DiffOp::Replace { old_index, old_len, new_index, new_len },
    }).collect()
}

/// `similar::TextDiff::from_lines(old, new).grouped_ops(context)`, each
/// operation copied field by field.  Nothing is claimed of the groups but
/// that they depend on the two texts and the context size alone.  Within
/// the limit `similar` does not run out of numbers for the distinct lines,
/// and twice a context size of at most half of `usize::MAX`, which it
/// compares the unchanged runs with, is still a `usize`.
#[verifier::external_body]
pub(crate) fn line_groups(old: &str, new: &str, context: usize) -> (groups: Vec<Vec<DiffOp>>)
    requires
        within_aligner_limit(old@, new@),
        context <= usize::MAX / 2,
    ensures
        groups.deep_view() == aligned_groups(old@, new@, context),
{
    let diff = similar::TextDiff::from_lines(old, new);
    diff.grouped_ops(context).iter().map(|group| group.iter().map(|op| match *op {
        similar::DiffOp::Equal { old_index, new_index, len } => DiffOp::Equal { old_index, new_index, len },
        similar::DiffOp::Delete { old_index, old_len, new_index } => DiffOp::Delete { old_index, old_len, new_index },
        similar::DiffOp::Insert { old_index, new_index, new_len } => DiffOp::Insert { old_index, new_index, new_len },
        similar::DiffOp::Replace { old_index, old_len, new_index, new_len } => DiffOp::Replace { old_index, old_len, new_index, new_len },
    }).collect()).collect()
}

} // verus!

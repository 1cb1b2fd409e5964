//! Choosing and ordering the paths that a directory walk came across.
//!
//! The walk itself is done elsewhere; what it found comes here as plain
//! values.

use vstd::prelude::*;

verus! {

/// What a directory walk yields at one step.
#[derive(Debug, PartialEq, Eq)]
pub enum Walked {
    /// An entry that could not be read.
    Failed,
    /// An entry that was read: whether it is a regular file, where its type
    /// is known, and its path, where that is valid Unicode.
    Entry { is_file: Option<bool>, path: Option<String> },
}

/// The path under which `entry` is listed: that of a regular file whose
/// path is valid Unicode.  Anything else is passed over.
pub open spec fn listed(entry: Walked) -> Option<Seq<char>> {
    match entry {
        Walked::Entry { is_file: Some(true), path: Some(path) } => Some(path@),
        _ => None,
    }
}

/// The paths of the entries that are listed, in the order of the walk.
pub open spec fn listed_paths(entries: Seq<Walked>) -> Seq<Seq<char>>
    decreases entries.len(),
{
    if entries.len() == 0 {
        Seq::empty()
    } else {
        let before = listed_paths(entries.drop_last());
        match listed(entries.last()) {
            Some(path) => before.push(path),
            None => before,
        }
    }
}

/// `a` does not come after `b` in the order of strings: at the first place
/// where they differ `a` has the lower character, or `a` ends first.
pub open spec fn text_le(a: Seq<char>, b: Seq<char>) -> bool
    decreases a.len(),
{
    if a.len() == 0 {
        true
    } else if b.len() == 0 {
        false
    } else if a[0] != b[0] {
        (a[0] as u32) < (b[0] as u32)
    } else {
        text_le(a.skip(1), b.skip(1))
    }
}

/// No path comes after a later one.
pub open spec fn is_sorted(paths: Seq<Seq<char>>) -> bool {
    forall|i: int, j: int| 0 <= i <= j < paths.len() ==> text_le(paths[i], paths[j])
}

/// The sort of slices in std, on strings: afterwards the strings are the
/// same as before, each as often as before, in ascending order.  Strings
/// compare character by character, by code point.
#[verifier::external_body]
fn sort_paths(paths: &mut Vec<String>)
    ensures
        is_sorted(final(paths).deep_view()),
        final(paths).deep_view().to_multiset() == old(paths).deep_view().to_multiset(),
        final(paths).len() == old(paths).len(),
{
    paths.sort();
}

/// The path under which `entry` is listed, if it is.
pub fn listed_path(entry: &Walked) -> (path: Option<&String>)
    ensures
        path.deep_view() == listed(*entry),
{
    match entry {
        Walked::Entry { is_file, path } => match (is_file, path) {
            (Some(true), Some(path)) => Some(path),
            _ => None,
        },
        Walked::Failed => None,
    }
}

/// The sorted paths of the regular files among `entries`.  Entries that
/// could not be read are passed over, and so are those whose path is not
/// valid Unicode.
pub fn select_files(entries: &Vec<Walked>) -> (files: Vec<String>)
    ensures
        is_sorted(files.deep_view()),
        files.deep_view().to_multiset() == listed_paths(entries@).to_multiset(),
        files.len() == listed_paths(entries@).len(),
{
    let mut files: Vec<String> = Vec::new();
    let mut k: usize = 0;
    assert(entries@.take(0) =~= Seq::<Walked>::empty());
    while k < entries.len()
        invariant
            k <= entries.len(),
            files.deep_view() == listed_paths(entries@.take(k as int)),
        decreases entries.len() - k,
    {
        let ghost before = files.deep_view();
        proof {
            let next = entries@.take(k + 1);
            assert(next.drop_last() =~= entries@.take(k as int));
            assert(next.last() == entries@[k as int]);
        }
        if let Some(path) = listed_path(&entries[k]) {
            let path = path.clone();
            files.push(path);
            assert(files.deep_view() =~= before.push(path@));
        }
        k += 1;
    }
    assert(entries@.take(entries.len() as int) =~= entries@);
    assert(files.deep_view().len() == files.len());
    sort_paths(&mut files);
    files
}

} // verus!

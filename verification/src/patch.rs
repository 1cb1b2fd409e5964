//! Exact-match patching: the first occurrence of a piece of text is
//! replaced by another, and a text that lacks the piece is left alone.

use crate::text::{push_chars, string_from, to_chars};
use vstd::prelude::*;
use vstd::string::StringExecFns;

verus! {

/// Why an edit was not applied.
#[derive(Clone, Copy, Debug, PartialEq, Eq, Structural)]
pub enum EditError {
    /// The text to replace does not occur in the content.
    NotFound,
}

impl EditError {
    /// The error in words.
    pub fn message(&self) -> (text: String)
        ensures
            text@ == "Could not find content to replace"@,
    {
        String::from_str("Could not find content to replace")
    }
}

/// `target` occurs in `content` at position `i`.
pub open spec fn occurs_at(content: Seq<char>, target: Seq<char>, i: int) -> bool {
    &&& 0 <= i
    &&& i + target.len() <= content.len()
    &&& content.subrange(i, i + target.len()) == target
}

/// `target` occurs somewhere in `content`.
pub open spec fn occurs_in(content: Seq<char>, target: Seq<char>) -> bool {
    exists|i: int| occurs_at(content, target, i)
}

/// `target` occurs in `content` at position `i` and nowhere before.
pub open spec fn is_first_occurrence(content: Seq<char>, target: Seq<char>, i: int) -> bool {
    &&& occurs_at(content, target, i)
    &&& forall|j: int| 0 <= j < i ==> !occurs_at(content, target, j)
}

/// The first position at which `target` occurs in `content`.
pub open spec fn first_occurrence(content: Seq<char>, target: Seq<char>) -> int {
    choose|i: int| is_first_occurrence(content, target, i)
}

/// `content` with the `len` characters from position `i` on replaced by
/// `replacement`.
pub open spec fn replaced_at(content: Seq<char>, i: int, len: int, replacement: Seq<char>) -> Seq<
    char,
> {
    content.subrange(0, i) + replacement + content.subrange(i + len, content.len() as int)
}

/// What an edit gives: the content with the first occurrence of `target`
/// replaced by `replacement`, or `NotFound` if `target` does not occur.
pub open spec fn edit_outcome(content: Seq<char>, target: Seq<char>, replacement: Seq<char>) -> Result<
    Seq<char>,
    EditError,
> {
    if occurs_in(content, target) {
        Ok(
            replaced_at(
                content,
                first_occurrence(content, target),
                target.len() as int,
                replacement,
            ),
        )
    } else {
        Err(EditError::NotFound)
    }
}

/// The characters of an edit's result, or its error.
pub open spec fn result_view(result: Result<String, EditError>) -> Result<Seq<char>, EditError> {
    match result {
        Ok(text) => Ok(text@),
        Err(e) => Err(e),
    }
}

/// A text has at most one first occurrence of a target.
pub proof fn lemma_first_occurrence_unique(content: Seq<char>, target: Seq<char>, i: int)
    requires
        is_first_occurrence(content, target, i),
    ensures
        occurs_in(content, target),
        first_occurrence(content, target) == i,
{
    let k = first_occurrence(content, target);
    assert(is_first_occurrence(content, target, k));
    if k < i {
        assert(!occurs_at(content, target, k));
    }
    if i < k {
        assert(!occurs_at(content, target, i));
    }
}

/// A target that occurs in a text has a first occurrence.
pub proof fn lemma_first_occurrence_exists(content: Seq<char>, target: Seq<char>)
    requires
        occurs_in(content, target),
    ensures
        is_first_occurrence(content, target, first_occurrence(content, target)),
{
    let some = choose|i: int| occurs_at(content, target, i);
    lemma_least_occurrence(content, target, some);
}

/// Below any occurrence there is a first one.
proof fn lemma_least_occurrence(content: Seq<char>, target: Seq<char>, i: int)
    requires
        occurs_at(content, target, i),
    ensures
        exists|k: int| is_first_occurrence(content, target, k),
    decreases i,
{
    if exists|j: int| 0 <= j < i && occurs_at(content, target, j) {
        let j = choose|j: int| 0 <= j < i && occurs_at(content, target, j);
        lemma_least_occurrence(content, target, j);
    } else {
        assert(is_first_occurrence(content, target, i));
    }
}

/// An edit of a content that has the target gives a text as long as the
/// content, less the target, plus the replacement.
pub proof fn lemma_edit_length(content: Seq<char>, target: Seq<char>, replacement: Seq<char>)
    requires
        occurs_in(content, target),
    ensures
        edit_outcome(content, target, replacement) is Ok,
        edit_outcome(content, target, replacement)->Ok_0.len() == content.len() - target.len()
            + replacement.len(),
{
    lemma_first_occurrence_exists(content, target);
}

/// Where the target occurs exactly once, the edit replaces that occurrence
/// and leaves what stands before and after it; the result is as long as the
/// content, less the target, plus the replacement.
pub proof fn lemma_edit_single_occurrence(
    content: Seq<char>,
    target: Seq<char>,
    replacement: Seq<char>,
    at: int,
)
    requires
        occurs_at(content, target, at),
        forall|j: int| occurs_at(content, target, j) ==> j == at,
    ensures
        edit_outcome(content, target, replacement) == Ok::<Seq<char>, EditError>(
            content.subrange(0, at) + replacement + content.subrange(
                at + target.len(),
                content.len() as int,
            ),
        ),
        edit_outcome(content, target, replacement)->Ok_0.len() == content.len() - target.len()
            + replacement.len(),
{
    lemma_first_occurrence_unique(content, target, at);
}

/// Where the target occurs twice, only its first occurrence is replaced:
/// the text before it and the text after it are the content's, and so a
/// later occurrence that does not overlap the first is found again in the
/// result, moved by the difference in length.
pub proof fn lemma_edit_replaces_first_only(
    content: Seq<char>,
    target: Seq<char>,
    replacement: Seq<char>,
    earlier: int,
    later: int,
)
    requires
        occurs_at(content, target, earlier),
        occurs_at(content, target, later),
        earlier < later,
    ensures
        edit_outcome(content, target, replacement) is Ok,
        ({
            let first = first_occurrence(content, target);
            let result = edit_outcome(content, target, replacement)->Ok_0;
            &&& is_first_occurrence(content, target, first)
            &&& first <= earlier
            &&& result.subrange(0, first) == content.subrange(0, first)
            &&& result.subrange(first, first + replacement.len()) == replacement
            &&& result.skip(first + replacement.len()) == content.skip(first + target.len())
            &&& first + target.len() <= later ==> occurs_at(
                result,
                target,
                later - target.len() + replacement.len(),
            )
        }),
{
    lemma_first_occurrence_exists(content, target);
    let first = first_occurrence(content, target);
    let result = edit_outcome(content, target, replacement)->Ok_0;
    let moved = later - target.len() + replacement.len();
    assert(result.subrange(0, first) =~= content.subrange(0, first));
    assert(result.subrange(first, first + replacement.len()) =~= replacement);
    assert(result.skip(first + replacement.len()) =~= content.skip(first + target.len()));
    if first + target.len() <= later {
        assert(result.subrange(moved, moved + target.len()) =~= content.subrange(
            later,
            later + target.len(),
        ));
    }
}

/// An edit of a content that lacks the target fails with `NotFound`.
pub proof fn lemma_edit_not_found(content: Seq<char>, target: Seq<char>, replacement: Seq<char>)
    requires
        !occurs_in(content, target),
    ensures
        edit_outcome(content, target, replacement) == Err::<Seq<char>, EditError>(
            EditError::NotFound,
        ),
{
}

/// Whether `target` occurs in `content` at position `i`.
fn matches_at(content: &Vec<char>, target: &Vec<char>, i: usize) -> (found: bool)
    requires
        i + target.len() <= content.len(),
    ensures
        found == occurs_at(content@, target@, i as int),
{
    let ghost window = content@.subrange(i as int, i + target.len());
    let mut k: usize = 0;
    while k < target.len()
        invariant
            k <= target.len(),
            i + target.len() <= content.len(),
            window == content@.subrange(i as int, i + target.len()),
            forall|j: int| 0 <= j < k ==> window[j] == target@[j],
        decreases target.len() - k,
    {
        if content[i + k] != target[k] {
            assert(window[k as int] != target@[k as int]);
            return false;
        }
        k += 1;
    }
    assert(window =~= target@);
    true
}

/// The first position at which `target` occurs in `content`, if it occurs.
pub fn find_first(content: &Vec<char>, target: &Vec<char>) -> (at: Option<usize>)
    ensures
        at is Some == occurs_in(content@, target@),
        at matches Some(i) ==> is_first_occurrence(content@, target@, i as int) && i
            == first_occurrence(content@, target@),
{
    if target.len() > content.len() {
        assert(!occurs_in(content@, target@));
        return None;
    }
    let last = content.len() - target.len();
    let mut i: usize = 0;
    loop
        invariant
            i <= last,
            last == content.len() - target.len(),
            forall|j: int| 0 <= j < i ==> !occurs_at(content@, target@, j),
        decreases last - i,
    {
        if matches_at(content, target, i) {
            proof {
                lemma_first_occurrence_unique(content@, target@, i as int);
            }
            return Some(i);
        }
        if i == last {
            assert(!occurs_in(content@, target@));
            return None;
        }
        i += 1;
    }
}

/// Replaces the first occurrence of `old_content` in `content` by
/// `new_content`.  All other text stays as it is, later occurrences of
/// `old_content` too.  A `content` without `old_content` gives `NotFound`.
pub fn apply_edit(content: &str, old_content: &str, new_content: &str) -> (result: Result<
    String,
    EditError,
>)
    ensures
        result_view(result) == edit_outcome(content@, old_content@, new_content@),
        result is Ok == occurs_in(content@, old_content@),
{
    let chars = to_chars(content);
    let target = to_chars(old_content);
    match find_first(&chars, &target) {
        None => Err(EditError::NotFound),
        Some(at) => {
            assert(occurs_at(chars@, target@, at as int));
            assert(at + target.len() <= chars.len());
            let after = at + target.len();
            let mut text = string_from(&chars, 0, at);
            text.append(new_content);
            push_chars(&mut text, &chars, after, chars.len());
            Ok(text)
        },
    }
}

} // verus!

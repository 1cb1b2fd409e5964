//! Alignment operations and the line changes they stand for.

use vstd::prelude::*;

verus! {

/// How a line of a diff relates to the two texts.
#[derive(Clone, Copy, Debug, PartialEq, Eq, Structural)]
pub enum ChangeTag {
    /// The line is in both texts.
    Equal,
    /// The line is in the old text only.
    Delete,
    /// The line is in the new text only.
    Insert,
}

/// One step of an alignment: a run of lines of the old text set against a
/// run of lines of the new text.
#[derive(Clone, Copy, Debug, PartialEq, Eq, Structural)]
pub enum DiffOp {
    /// `len` lines from `old_index` on equal the `len` lines from `new_index` on.
    Equal { old_index: usize, new_index: usize, len: usize },
    /// `old_len` old lines from `old_index` on have no counterpart.
    Delete { old_index: usize, old_len: usize, new_index: usize },
    /// `new_len` new lines from `new_index` on have no counterpart.
    Insert { old_index: usize, new_index: usize, new_len: usize },
    /// `old_len` old lines give way to `new_len` new lines.
    Replace { old_index: usize, old_len: usize, new_index: usize, new_len: usize },
}

impl DeepView for ChangeTag {
    type V = ChangeTag;

    open spec fn deep_view(&self) -> ChangeTag {
        *self
    }
}

impl DeepView for DiffOp {
    type V = DiffOp;

    open spec fn deep_view(&self) -> DiffOp {
        *self
    }
}

impl DiffOp {
    /// Index of the first old line the operation covers.
    pub open spec fn old_start(self) -> int {
        match self {
            DiffOp::Equal { old_index, .. } => old_index as int,
            DiffOp::Delete { old_index, .. } => old_index as int,
            DiffOp::Insert { old_index, .. } => old_index as int,
            DiffOp::Replace { old_index, .. } => old_index as int,
        }
    }

    /// Number of old lines the operation covers.
    pub open spec fn old_count(self) -> int {
        match self {
            DiffOp::Equal { len, .. } => len as int,
            DiffOp::Delete { old_len, .. } => old_len as int,
            DiffOp::Insert { .. } => 0,
            DiffOp::Replace { old_len, .. } => old_len as int,
        }
    }

    /// Index of the first new line the operation covers.
    pub open spec fn new_start(self) -> int {
        match self {
            DiffOp::Equal { new_index, .. } => new_index as int,
            DiffOp::Delete { new_index, .. } => new_index as int,
            DiffOp::Insert { new_index, .. } => new_index as int,
            DiffOp::Replace { new_index, .. } => new_index as int,
        }
    }

    /// Number of new lines the operation covers.
    pub open spec fn new_count(self) -> int {
        match self {
            DiffOp::Equal { len, .. } => len as int,
            DiffOp::Delete { .. } => 0,
            DiffOp::Insert { new_len, .. } => new_len as int,
            DiffOp::Replace { new_len, .. } => new_len as int,
        }
    }

    /// Index just past the last old line the operation covers.
    pub open spec fn old_end(self) -> int {
        self.old_start() + self.old_count()
    }

    /// Index just past the last new line the operation covers.
    pub open spec fn new_end(self) -> int {
        self.new_start() + self.new_count()
    }

    /// Index of the first old line the operation covers.
    pub fn old_index(&self) -> (i: usize)
        ensures
            i == self.old_start(),
    {
        match self {
            DiffOp::Equal { old_index, .. } => *old_index,
            DiffOp::Delete { old_index, .. } => *old_index,
            DiffOp::Insert { old_index, .. } => *old_index,
            DiffOp::Replace { old_index, .. } => *old_index,
        }
    }

    /// Number of old lines the operation covers.
    pub fn old_len(&self) -> (n: usize)
        ensures
            n == self.old_count(),
    {
        match self {
            DiffOp::Equal { len, .. } => *len,
            DiffOp::Delete { old_len, .. } => *old_len,
            DiffOp::Insert { .. } => 0,
            DiffOp::Replace { old_len, .. } => *old_len,
        }
    }

    /// Index of the first new line the operation covers.
    pub fn new_index(&self) -> (i: usize)
        ensures
            i == self.new_start(),
    {
        match self {
            DiffOp::Equal { new_index, .. } => *new_index,
            DiffOp::Delete { new_index, .. } => *new_index,
            DiffOp::Insert { new_index, .. } => *new_index,
            DiffOp::Replace { new_index, .. } => *new_index,
        }
    }

    /// Number of new lines the operation covers.
    pub fn new_len(&self) -> (n: usize)
        ensures
            n == self.new_count(),
    {
        match self {
            DiffOp::Equal { len, .. } => *len,
            DiffOp::Delete { .. } => 0,
            DiffOp::Insert { new_len, .. } => *new_len,
            DiffOp::Replace { new_len, .. } => *new_len,
        }
    }
}

/// Each of `lines` under the tag `tag`.
pub open spec fn tagged(tag: ChangeTag, lines: Seq<Seq<char>>) -> Seq<(ChangeTag, Seq<char>)> {
    lines.map_values(|l: Seq<char>| (tag, l))
}

/// The old lines that `op` covers.  An insertion covers none, and where it
/// says it stands in the old text is of no account.
pub open spec fn old_part(op: DiffOp, old_lines: Seq<Seq<char>>) -> Seq<Seq<char>> {
    if op is Insert {
        Seq::empty()
    } else {
        old_lines.subrange(op.old_start(), op.old_end())
    }
}

/// The new lines that `op` covers.  A deletion covers none, and where it
/// says it stands in the new text is of no account.
pub open spec fn new_part(op: DiffOp, new_lines: Seq<Seq<char>>) -> Seq<Seq<char>> {
    if op is Delete {
        Seq::empty()
    } else {
        new_lines.subrange(op.new_start(), op.new_end())
    }
}

/// The changes that `op` stands for: equal lines are taken from the old
/// text, and a replacement deletes before it inserts.
pub open spec fn op_changes(op: DiffOp, old_lines: Seq<Seq<char>>, new_lines: Seq<Seq<char>>) -> Seq<
    (ChangeTag, Seq<char>),
> {
    match op {
        DiffOp::Equal { .. } => tagged(ChangeTag::Equal, old_part(op, old_lines)),
        DiffOp::Delete { .. } => tagged(ChangeTag::Delete, old_part(op, old_lines)),
        DiffOp::Insert { .. } => tagged(ChangeTag::Insert, new_part(op, new_lines)),
        DiffOp::Replace { .. } => tagged(ChangeTag::Delete, old_part(op, old_lines)) + tagged(
            ChangeTag::Insert,
            new_part(op, new_lines),
        ),
    }
}

/// The changes that `ops` stand for, in order.
pub open spec fn changes_of(
    ops: Seq<DiffOp>,
    old_lines: Seq<Seq<char>>,
    new_lines: Seq<Seq<char>>,
) -> Seq<(ChangeTag, Seq<char>)> {
    changes_by_op(ops, old_lines, new_lines).flatten()
}

/// For each of `ops`, the changes it stands for.
pub open spec fn changes_by_op(
    ops: Seq<DiffOp>,
    old_lines: Seq<Seq<char>>,
    new_lines: Seq<Seq<char>>,
) -> Seq<Seq<(ChangeTag, Seq<char>)>> {
    ops.map_values(|op: DiffOp| op_changes(op, old_lines, new_lines))
}

/// The lines that replaying `changes` gives for the old text: those of the
/// equal and the deleted changes.
pub open spec fn old_side(changes: Seq<(ChangeTag, Seq<char>)>) -> Seq<Seq<char>> {
    changes.filter(|c: (ChangeTag, Seq<char>)| c.0 != ChangeTag::Insert).map_values(
        |c: (ChangeTag, Seq<char>)| c.1,
    )
}

/// The lines that replaying `changes` gives for the new text: those of the
/// equal and the inserted changes.
pub open spec fn new_side(changes: Seq<(ChangeTag, Seq<char>)>) -> Seq<Seq<char>> {
    changes.filter(|c: (ChangeTag, Seq<char>)| c.0 != ChangeTag::Delete).map_values(
        |c: (ChangeTag, Seq<char>)| c.1,
    )
}

/// The lines that `op` covers lie within texts of `old_len` and `new_len`
/// lines.
pub open spec fn in_bounds(op: DiffOp, old_len: int, new_len: int) -> bool {
    &&& op is Insert || op.old_end() <= old_len
    &&& op is Delete || op.new_end() <= new_len
}

/// Replaying tagged lines gives the lines on each side that the tag belongs to.
pub proof fn lemma_tagged_sides(tag: ChangeTag, lines: Seq<Seq<char>>)
    ensures
        old_side(tagged(tag, lines)) == (if tag == ChangeTag::Insert {
            Seq::<Seq<char>>::empty()
        } else {
            lines
        }),
        new_side(tagged(tag, lines)) == (if tag == ChangeTag::Delete {
            Seq::<Seq<char>>::empty()
        } else {
            lines
        }),
    decreases lines.len(),
{
    broadcast use Seq::lemma_filter_push;

    if lines.len() == 0 {
        reveal(Seq::filter);
        assert(tagged(tag, lines) =~= Seq::<(ChangeTag, Seq<char>)>::empty());
        assert(old_side(tagged(tag, lines)) =~= Seq::<Seq<char>>::empty());
        assert(new_side(tagged(tag, lines)) =~= Seq::<Seq<char>>::empty());
        assert(lines =~= Seq::<Seq<char>>::empty());
    } else {
        let init = lines.drop_last();
        lemma_tagged_sides(tag, init);
        assert(tagged(tag, lines) =~= tagged(tag, init).push((tag, lines.last())));
        assert(init.push(lines.last()) =~= lines);
        if tag == ChangeTag::Insert {
            assert(old_side(tagged(tag, lines)) =~= old_side(tagged(tag, init)));
        } else {
            assert(old_side(tagged(tag, lines)) =~= old_side(tagged(tag, init)).push(lines.last()));
        }
        if tag == ChangeTag::Delete {
            assert(new_side(tagged(tag, lines)) =~= new_side(tagged(tag, init)));
        } else {
            assert(new_side(tagged(tag, lines)) =~= new_side(tagged(tag, init)).push(lines.last()));
        }
    }
}

/// Replaying one sequence of changes after another gives, on each side, the
/// lines of the first followed by the lines of the second.
pub proof fn lemma_sides_concat(x: Seq<(ChangeTag, Seq<char>)>, y: Seq<(ChangeTag, Seq<char>)>)
    ensures
        old_side(x + y) == old_side(x) + old_side(y),
        new_side(x + y) == new_side(x) + new_side(y),
{
    broadcast use Seq::filter_distributes_over_add;

    assert(old_side(x + y) =~= old_side(x) + old_side(y));
    assert(new_side(x + y) =~= new_side(x) + new_side(y));
}

/// The changes of a sequence of operations are those of all but the last
/// operation followed by those of the last.
pub proof fn lemma_changes_last(ops: Seq<DiffOp>, old_lines: Seq<Seq<char>>, new_lines: Seq<Seq<char>>)
    requires
        ops.len() > 0,
    ensures
        changes_of(ops, old_lines, new_lines) == changes_of(ops.drop_last(), old_lines, new_lines)
            + op_changes(ops.last(), old_lines, new_lines),
{
    let init = changes_by_op(ops.drop_last(), old_lines, new_lines);
    let last = op_changes(ops.last(), old_lines, new_lines);
    assert(changes_by_op(ops, old_lines, new_lines) =~= init.push(last));
    init.lemma_flatten_push(last);
}

/// Changes that are all inserted are the new side as it stands, and changes
/// that are all deleted are the old side as it stands.
pub proof fn lemma_sides_of_one_tag(changes: Seq<(ChangeTag, Seq<char>)>)
    ensures
        (forall|i: int| 0 <= i < changes.len() ==> (#[trigger] changes[i]).0 == ChangeTag::Insert)
            ==> changes == tagged(ChangeTag::Insert, new_side(changes)),
        (forall|i: int| 0 <= i < changes.len() ==> (#[trigger] changes[i]).0 == ChangeTag::Delete)
            ==> changes == tagged(ChangeTag::Delete, old_side(changes)),
    decreases changes.len(),
{
    broadcast use Seq::lemma_filter_push;

    if changes.len() == 0 {
        reveal(Seq::filter);
        assert(changes =~= tagged(ChangeTag::Insert, new_side(changes)));
        assert(changes =~= tagged(ChangeTag::Delete, old_side(changes)));
    } else {
        let init = changes.drop_last();
        let last = changes.last();
        lemma_sides_of_one_tag(init);
        assert(init.push(last) =~= changes);
        if forall|i: int| 0 <= i < changes.len() ==> (#[trigger] changes[i]).0 == ChangeTag::Insert {
            assert forall|i: int| 0 <= i < init.len() implies (#[trigger] init[i]).0
                == ChangeTag::Insert by {
                assert(init[i] == changes[i]);
            }
            assert(changes[changes.len() - 1].0 == ChangeTag::Insert);
            assert(new_side(changes) =~= new_side(init).push(last.1));
            assert(changes =~= tagged(ChangeTag::Insert, new_side(changes)));
        }
        if forall|i: int| 0 <= i < changes.len() ==> (#[trigger] changes[i]).0 == ChangeTag::Delete {
            assert forall|i: int| 0 <= i < init.len() implies (#[trigger] init[i]).0
                == ChangeTag::Delete by {
                assert(init[i] == changes[i]);
            }
            assert(changes[changes.len() - 1].0 == ChangeTag::Delete);
            assert(old_side(changes) =~= old_side(init).push(last.1));
            assert(changes =~= tagged(ChangeTag::Delete, old_side(changes)));
        }
    }
}

/// Appends to `changes` the `count` lines from `from` on, each under the
/// tag `tag`.
fn push_tagged(
    changes: &mut Vec<(ChangeTag, String)>,
    tag: ChangeTag,
    lines: &Vec<String>,
    from: usize,
    count: usize,
)
    requires
        from + count <= lines.len(),
    ensures
        final(changes).deep_view() == old(changes).deep_view() + tagged(
            tag,
            lines.deep_view().subrange(from as int, from + count),
        ),
{
    let ghost before = changes.deep_view();
    let ghost all = lines.deep_view();
    let mut k: usize = 0;
    assert(before + tagged(tag, all.subrange(from as int, from as int)) =~= before);
    while k < count
        invariant
            k <= count,
            from + count <= lines.len(),
            all == lines.deep_view(),
            changes.deep_view() == before + tagged(tag, all.subrange(from as int, from + k)),
        decreases count - k,
    {
        let ghost so_far = changes.deep_view();
        let line = lines[from + k].clone();
        changes.push((tag, line));
        assert(changes.deep_view() =~= so_far.push((tag, line@)));
        assert(so_far.push((tag, line@)) =~= before + tagged(
            tag,
            all.subrange(from as int, from + k + 1),
        ));
        k += 1;
    }
}

/// The changes that `ops` stand for, in order: for every line that an
/// operation covers its tag and the line itself.
pub fn expand(ops: &Vec<DiffOp>, old_lines: &Vec<String>, new_lines: &Vec<String>) -> (changes: Vec<
    (ChangeTag, String),
>)
    requires
        forall|i: int|
            0 <= i < ops.len() ==> in_bounds(
                #[trigger] ops@[i],
                old_lines.len() as int,
                new_lines.len() as int,
            ),
    ensures
        changes.deep_view() == changes_of(ops@, old_lines.deep_view(), new_lines.deep_view()),
{
    let ghost a = old_lines.deep_view();
    let ghost b = new_lines.deep_view();
    let mut changes: Vec<(ChangeTag, String)> = Vec::new();
    let mut i: usize = 0;
    assert(changes.deep_view() =~= changes_of(ops@.take(0), a, b));
    while i < ops.len()
        invariant
            i <= ops.len(),
            a == old_lines.deep_view(),
            b == new_lines.deep_view(),
            forall|j: int|
                0 <= j < ops.len() ==> in_bounds(
                    #[trigger] ops@[j],
                    old_lines.len() as int,
                    new_lines.len() as int,
                ),
            changes.deep_view() == changes_of(ops@.take(i as int), a, b),
        decreases ops.len() - i,
    {
        let ghost so_far = changes.deep_view();
        let ghost upto = ops@.take(i + 1);
        let op = &ops[i];
        proof {
            assert(upto.drop_last() =~= ops@.take(i as int));
            assert(upto.last() == ops@[i as int]);
            lemma_changes_last(upto, a, b);
            assert(in_bounds(ops@[i as int], old_lines.len() as int, new_lines.len() as int));
        }
        match op {
            DiffOp::Equal { old_index, len, .. } => {
                push_tagged(&mut changes, ChangeTag::Equal, old_lines, *old_index, *len);
            },
            DiffOp::Delete { old_index, old_len, .. } => {
                push_tagged(&mut changes, ChangeTag::Delete, old_lines, *old_index, *old_len);
            },
            DiffOp::Insert { new_index, new_len, .. } => {
                push_tagged(&mut changes, ChangeTag::Insert, new_lines, *new_index, *new_len);
            },
            DiffOp::Replace { old_index, old_len, new_index, new_len } => {
                push_tagged(&mut changes, ChangeTag::Delete, old_lines, *old_index, *old_len);
                push_tagged(&mut changes, ChangeTag::Insert, new_lines, *new_index, *new_len);
                assert(changes.deep_view() =~= so_far + op_changes(*op, a, b));
            },
        }
        i += 1;
    }
    assert(ops@.take(ops.len() as int) =~= ops@);
    changes
}

} // verus!

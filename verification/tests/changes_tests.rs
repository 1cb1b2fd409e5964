use codesm_core::diff::line_changes;
use codesm_core::lines::split_lines;
use codesm_core::ops::{expand, ChangeTag, DiffOp};

fn change(tag: ChangeTag, line: &str) -> (ChangeTag, String) {
    (tag, line.to_string())
}

fn old_text(changes: &[(ChangeTag, String)]) -> String {
    changes.iter().filter(|c| c.0 != ChangeTag::Insert).map(|c| c.1.as_str()).collect()
}

fn new_text(changes: &[(ChangeTag, String)]) -> String {
    changes.iter().filter(|c| c.0 != ChangeTag::Delete).map(|c| c.1.as_str()).collect()
}

/// The changes as the `similar` crate gives them when driven directly.
fn direct_changes(old: &str, new: &str) -> Vec<(ChangeTag, String)> {
    let diff = similar::TextDiff::from_lines(old, new);
    diff.iter_all_changes()
        .map(|c| {
            let tag = match c.tag() {
                similar::ChangeTag::Equal => ChangeTag::Equal,
                similar::ChangeTag::Delete => ChangeTag::Delete,
                similar::ChangeTag::Insert => ChangeTag::Insert,
            };
            (tag, c.value().to_string())
        })
        .collect()
}

fn step(state: &mut u64) -> usize {
    *state = state.wrapping_mul(6364136223846793005).wrapping_add(1442695040888963407);
    (*state >> 33) as usize
}

fn made_up(state: &mut u64) -> String {
    let pieces = ["a\n", "b\n", "c\n", "a\r\n", "b\r", "\n", "tail"];
    let count = step(state) % 12;
    let mut text = String::new();
    for _ in 0..count {
        text.push_str(pieces[step(state) % pieces.len()]);
    }
    text
}

#[test]
fn changes_of_a_changed_last_line() {
    assert_eq!(
        line_changes("a\nb\nc", "a\nb\nC"),
        Some(vec![
            change(ChangeTag::Equal, "a\n"),
            change(ChangeTag::Equal, "b\n"),
            change(ChangeTag::Delete, "c"),
            change(ChangeTag::Insert, "C"),
        ])
    );
}

#[test]
fn changes_of_an_empty_old_text_are_all_inserted() {
    assert_eq!(
        line_changes("", "a\nb\n"),
        Some(vec![change(ChangeTag::Insert, "a\n"), change(ChangeTag::Insert, "b\n")])
    );
}

#[test]
fn changes_of_an_empty_new_text_are_all_deleted() {
    assert_eq!(
        line_changes("a\nb\n", ""),
        Some(vec![change(ChangeTag::Delete, "a\n"), change(ChangeTag::Delete, "b\n")])
    );
}

#[test]
fn changes_of_equal_texts_are_all_equal() {
    assert_eq!(
        line_changes("a\nb", "a\nb"),
        Some(vec![change(ChangeTag::Equal, "a\n"), change(ChangeTag::Equal, "b")])
    );
    assert_eq!(line_changes("", ""), Some(vec![]));
}

#[test]
fn replaying_changes_gives_back_both_texts() {
    let mut state: u64 = 11;
    for _ in 0..1000 {
        let old = made_up(&mut state);
        let new = made_up(&mut state);
        let changes = line_changes(&old, &new).expect("changes");
        assert_eq!(old_text(&changes), old);
        assert_eq!(new_text(&changes), new);
    }
}

#[test]
fn changes_are_those_of_the_aligner_driven_directly() {
    let mut state: u64 = 12;
    for _ in 0..1000 {
        let old = made_up(&mut state);
        let new = made_up(&mut state);
        assert_eq!(line_changes(&old, &new), Some(direct_changes(&old, &new)));
    }
}

#[test]
fn expanding_operations_gives_their_lines_in_order() {
    let old_lines = split_lines("a\nb\nc\n");
    let new_lines = split_lines("a\nx\ny\nc\n");
    let ops = vec![
        DiffOp::Equal { old_index: 0, new_index: 0, len: 1 },
        DiffOp::Replace { old_index: 1, old_len: 1, new_index: 1, new_len: 2 },
        DiffOp::Equal { old_index: 2, new_index: 3, len: 1 },
    ];
    assert_eq!(
        expand(&ops, &old_lines, &new_lines),
        vec![
            change(ChangeTag::Equal, "a\n"),
            change(ChangeTag::Delete, "b\n"),
            change(ChangeTag::Insert, "x\n"),
            change(ChangeTag::Insert, "y\n"),
            change(ChangeTag::Equal, "c\n"),
        ]
    );
    let single = vec![DiffOp::Delete { old_index: 1, old_len: 2, new_index: 9 }];
    assert_eq!(
        expand(&single, &old_lines, &new_lines),
        vec![change(ChangeTag::Delete, "b\n"), change(ChangeTag::Delete, "c\n")]
    );
    let inserted = vec![DiffOp::Insert { old_index: 9, new_index: 3, new_len: 1 }];
    assert_eq!(expand(&inserted, &old_lines, &new_lines), vec![change(ChangeTag::Insert, "c\n")]);
    assert_eq!(expand(&vec![], &old_lines, &new_lines), vec![]);
}

use codesm_core::diff::{align, diff_files, diff_with_context, render_checked};
use codesm_core::lines::split_lines;
use codesm_core::context::{check_context, check_window, leading_of, trailing_of};
use codesm_core::groups::{check_diff, groups_end_checked};
use codesm_core::lines::same_lines;
use codesm_core::ops::{ChangeTag, DiffOp};
use codesm_core::paths::{check_alignment, fits_at, path_end};
use codesm_core::render::{render_groups, sign_of};

fn owned(lines: &[&str]) -> Vec<String> {
    lines.iter().map(|l| l.to_string()).collect()
}

/// The diff as the `similar` crate gives it when driven directly.
fn direct(old: &str, new: &str, context: usize) -> String {
    let diff = similar::TextDiff::from_lines(old, new);
    let mut result = String::new();
    for (idx, group) in diff.grouped_ops(context).iter().enumerate() {
        if idx > 0 {
            result.push_str("...\n");
        }
        for op in group {
            for change in diff.iter_changes(op) {
                let sign = match change.tag() {
                    similar::ChangeTag::Delete => "-",
                    similar::ChangeTag::Insert => "+",
                    similar::ChangeTag::Equal => " ",
                };
                result.push_str(sign);
                result.push_str(change.value());
            }
        }
    }
    result
}

fn numbered(count: usize, changed: &[usize]) -> String {
    let mut text = String::new();
    for i in 0..count {
        if changed.contains(&i) {
            text.push_str(&format!("changed {}\n", i));
        } else {
            text.push_str(&format!("line {}\n", i));
        }
    }
    text
}

#[test]
fn one_changed_line_renders_one_group() {
    let text = diff_files("a\nb\nc\n", "a\nx\nc\n", "file.txt");
    assert_eq!(text, Some(" a\n-b\n+x\n c\n".to_string()));
}

#[test]
fn distant_changes_render_two_groups_with_separator() {
    let old = "first\n1\n2\n3\n4\n5\n6\n7\n8\n9\n10\nlast\n";
    let new = "FIRST\n1\n2\n3\n4\n5\n6\n7\n8\n9\n10\nLAST\n";
    let expected = "-first\n+FIRST\n 1\n 2\n 3\n...\n 8\n 9\n 10\n-last\n+LAST\n";
    assert_eq!(diff_files(old, new, ""), Some(expected.to_string()));
}

#[test]
fn changes_six_lines_apart_share_a_group() {
    let old = "first\n1\n2\n3\n4\n5\n6\nlast\n";
    let new = "FIRST\n1\n2\n3\n4\n5\n6\nLAST\n";
    let expected = "-first\n+FIRST\n 1\n 2\n 3\n 4\n 5\n 6\n-last\n+LAST\n";
    assert_eq!(diff_files(old, new, ""), Some(expected.to_string()));
}

#[test]
fn changes_seven_lines_apart_are_separated() {
    let old = "first\n1\n2\n3\n4\n5\n6\n7\nlast\n";
    let new = "FIRST\n1\n2\n3\n4\n5\n6\n7\nLAST\n";
    let expected = "-first\n+FIRST\n 1\n 2\n 3\n...\n 5\n 6\n 7\n-last\n+LAST\n";
    assert_eq!(diff_files(old, new, ""), Some(expected.to_string()));
}

#[test]
fn equal_texts_have_an_empty_diff() {
    for text in ["", "a", "a\n", "a\nb\nc\n", "one\r\ntwo\rthree", "\n\n\n"] {
        assert_eq!(diff_files(text, text, "name"), Some(String::new()));
        assert_eq!(diff_with_context(text, text, 0), Some(String::new()));
    }
    let long = numbered(300, &[]);
    assert_eq!(diff_files(&long, &long, "name"), Some(String::new()));
}

#[test]
fn diff_is_the_same_when_asked_twice() {
    let old = numbered(40, &[]);
    let new = numbered(40, &[3, 20, 21, 39]);
    let first = diff_files(&old, &new, "a");
    let second = diff_files(&old, &new, "b");
    assert!(first.is_some());
    assert_eq!(first, second);
}

#[test]
fn empty_old_text_is_all_inserts() {
    assert_eq!(diff_files("", "a\nb\n", ""), Some("+a\n+b\n".to_string()));
}

#[test]
fn empty_new_text_is_all_deletes() {
    assert_eq!(diff_files("a\nb\n", "", ""), Some("-a\n-b\n".to_string()));
}

#[test]
fn missing_final_newline_is_kept_as_it_is() {
    assert_eq!(diff_files("a\nb", "a\nc", ""), Some(" a\n-b+c".to_string()));
    assert_eq!(diff_files("a\nb", "a\nb\n", ""), Some(" a\n-b+b\n".to_string()));
}

#[test]
fn diff_agrees_with_the_aligner_driven_directly() {
    let cases: Vec<(String, String)> = vec![
        ("a\nb\nc\n".to_string(), "a\nx\nc\n".to_string()),
        ("same\ntext\n".to_string(), "same\ntext\n".to_string()),
        ("".to_string(), "".to_string()),
        (numbered(130, &[]), numbered(130, &[])),
        ("".to_string(), "x".to_string()),
        ("x".to_string(), "".to_string()),
        ("a\r\nb\rc\n".to_string(), "a\r\nB\rc\nd".to_string()),
        ("h\u{e9}llo\nw\u{f6}rld\n".to_string(), "h\u{e9}llo\nworld\n".to_string()),
        (numbered(30, &[]), numbered(30, &[0, 14, 29])),
        (numbered(250, &[]), numbered(250, &[5, 6, 120, 249])),
        (numbered(120, &[7]), numbered(90, &[70])),
    ];
    for (old, new) in cases {
        assert_eq!(diff_files(&old, &new, "f"), Some(direct(&old, &new, 3)));
        assert_eq!(diff_with_context(&old, &new, 0), Some(direct(&old, &new, 0)));
        assert_eq!(diff_with_context(&old, &new, 1), Some(direct(&old, &new, 1)));
    }
}

#[test]
fn context_size_bounds_the_unchanged_lines() {
    let old = "1\n2\n3\n4\nold\n5\n6\n7\n8\n";
    let new = "1\n2\n3\n4\nnew\n5\n6\n7\n8\n";
    assert_eq!(diff_with_context(old, new, 0), Some("-old\n+new\n".to_string()));
    assert_eq!(diff_with_context(old, new, 1), Some(" 4\n-old\n+new\n 5\n".to_string()));
    assert_eq!(
        diff_with_context(old, new, 3),
        Some(" 2\n 3\n 4\n-old\n+new\n 5\n 6\n 7\n".to_string())
    );
}

#[test]
fn alignment_of_a_replaced_line() {
    let ops = align("a\nb\nc\n", "a\nx\nc\n");
    assert_eq!(
        ops,
        Some(vec![
            DiffOp::Equal { old_index: 0, new_index: 0, len: 1 },
            DiffOp::Replace { old_index: 1, old_len: 1, new_index: 1, new_len: 1 },
            DiffOp::Equal { old_index: 2, new_index: 2, len: 1 },
        ])
    );
}

#[test]
fn alignment_of_empty_texts_has_no_operation() {
    assert_eq!(align("", ""), Some(vec![]));
}

#[test]
fn alignment_of_equal_texts_is_one_equal_run() {
    assert_eq!(
        align("a\nb\n", "a\nb\n"),
        Some(vec![DiffOp::Equal { old_index: 0, new_index: 0, len: 2 }])
    );
}

/// Replays the operations: the old text from equal and deleted lines, the
/// new text from equal and inserted lines.
fn replay(ops: &[DiffOp], old_lines: &[String], new_lines: &[String]) -> (String, String) {
    let mut old = String::new();
    let mut new = String::new();
    for op in ops {
        match *op {
            DiffOp::Equal { old_index, len, .. } => {
                for k in 0..len {
                    old.push_str(&old_lines[old_index + k]);
                    new.push_str(&old_lines[old_index + k]);
                }
            }
            DiffOp::Delete { old_index, old_len, .. } => {
                for k in 0..old_len {
                    old.push_str(&old_lines[old_index + k]);
                }
            }
            DiffOp::Insert { new_index, new_len, .. } => {
                for k in 0..new_len {
                    new.push_str(&new_lines[new_index + k]);
                }
            }
            DiffOp::Replace { old_index, old_len, new_index, new_len } => {
                for k in 0..old_len {
                    old.push_str(&old_lines[old_index + k]);
                }
                for k in 0..new_len {
                    new.push_str(&new_lines[new_index + k]);
                }
            }
        }
    }
    (old, new)
}

#[test]
fn replaying_an_alignment_gives_back_both_texts() {
    let cases: Vec<(String, String)> = vec![
        ("a\nb\nc\n".to_string(), "a\nx\nc\n".to_string()),
        ("".to_string(), "only new\n".to_string()),
        ("only old".to_string(), "".to_string()),
        ("a\r\nb\rc".to_string(), "b\rc\r\nd\n".to_string()),
        (numbered(150, &[]), numbered(140, &[1, 50, 51, 139])),
    ];
    for (old, new) in cases {
        let ops = align(&old, &new).expect("an alignment");
        let old_lines = split_lines(&old);
        let new_lines = split_lines(&new);
        assert!(check_alignment(&ops, &old_lines, &new_lines));
        let (old_again, new_again) = replay(&ops, &old_lines, &new_lines);
        assert_eq!(old_again, old);
        assert_eq!(new_again, new);
    }
}

#[test]
fn operations_that_leave_a_gap_are_no_alignment() {
    let old_lines = owned(&["a\n", "b\n", "c\n"]);
    let new_lines = owned(&["a\n", "c\n"]);
    let good = vec![
        DiffOp::Equal { old_index: 0, new_index: 0, len: 1 },
        DiffOp::Delete { old_index: 1, old_len: 1, new_index: 1 },
        DiffOp::Equal { old_index: 2, new_index: 1, len: 1 },
    ];
    assert!(check_alignment(&good, &old_lines, &new_lines));
    let gap = vec![
        DiffOp::Equal { old_index: 0, new_index: 0, len: 1 },
        DiffOp::Equal { old_index: 2, new_index: 1, len: 1 },
    ];
    assert!(!check_alignment(&gap, &old_lines, &new_lines));
    let short = vec![
        DiffOp::Equal { old_index: 0, new_index: 0, len: 1 },
        DiffOp::Delete { old_index: 1, old_len: 1, new_index: 1 },
    ];
    assert!(!check_alignment(&short, &old_lines, &new_lines));
    let late = vec![DiffOp::Delete { old_index: 1, old_len: 2, new_index: 0 }];
    assert!(!check_alignment(&late, &old_lines, &new_lines));
    assert!(!check_alignment(&[].to_vec(), &old_lines, &new_lines));
    assert!(check_alignment(&[].to_vec(), &owned(&[]), &owned(&[])));
}

#[test]
fn equal_operation_over_different_lines_does_not_fit() {
    let old_lines = owned(&["a\n", "b\n"]);
    let new_lines = owned(&["a\n", "c\n"]);
    let one = DiffOp::Equal { old_index: 0, new_index: 0, len: 1 };
    assert!(fits_at(&one, &old_lines, &new_lines, 0, 0));
    let two = DiffOp::Equal { old_index: 0, new_index: 0, len: 2 };
    assert!(!fits_at(&two, &old_lines, &new_lines, 0, 0));
    let second = DiffOp::Equal { old_index: 1, new_index: 1, len: 1 };
    assert!(!fits_at(&second, &old_lines, &new_lines, 1, 1));
    let replace = DiffOp::Replace { old_index: 1, old_len: 1, new_index: 1, new_len: 1 };
    assert!(fits_at(&replace, &old_lines, &new_lines, 1, 1));
    assert!(!fits_at(&replace, &old_lines, &new_lines, 0, 1));
    assert!(!fits_at(&replace, &old_lines, &new_lines, 1, 0));
}

#[test]
fn operation_beyond_the_lines_does_not_fit() {
    let old_lines = owned(&["a\n"]);
    let new_lines = owned(&["a\n"]);
    let long = DiffOp::Delete { old_index: 0, old_len: 2, new_index: 0 };
    assert!(!fits_at(&long, &old_lines, &new_lines, 0, 0));
    let far = DiffOp::Delete { old_index: 2, old_len: 0, new_index: 0 };
    assert!(!fits_at(&far, &old_lines, &new_lines, 2, 0));
    let past = DiffOp::Insert { old_index: 0, new_index: 1, new_len: 1 };
    assert!(!fits_at(&past, &old_lines, &new_lines, 0, 1));
    let huge = DiffOp::Insert { old_index: 0, new_index: 1, new_len: usize::MAX };
    assert!(!fits_at(&huge, &old_lines, &new_lines, 0, 1));
    let nothing = DiffOp::Insert { old_index: 1, new_index: 1, new_len: 0 };
    assert!(fits_at(&nothing, &old_lines, &new_lines, 1, 1));
}

#[test]
fn place_of_an_insertion_in_the_old_text_is_of_no_account() {
    let old_lines = owned(&["a\n"]);
    let new_lines = owned(&["a\n", "b\n"]);
    for stated in [0, 1, 7] {
        let ops = vec![
            DiffOp::Equal { old_index: 0, new_index: 0, len: 1 },
            DiffOp::Insert { old_index: stated, new_index: 1, new_len: 1 },
        ];
        assert!(check_alignment(&ops, &old_lines, &new_lines));
        assert_eq!(render_checked(&old_lines, &new_lines, &vec![ops], 3), Some(" a\n+b\n".to_string()));
    }
    let misplaced = vec![
        DiffOp::Equal { old_index: 0, new_index: 0, len: 1 },
        DiffOp::Insert { old_index: 1, new_index: 0, new_len: 1 },
    ];
    assert!(!check_alignment(&misplaced, &old_lines, &new_lines));
}

#[test]
fn place_of_a_deletion_in_the_new_text_is_of_no_account() {
    let old_lines = owned(&["a\n", "b\n"]);
    let new_lines = owned(&["b\n"]);
    for stated in [0, 1, 7] {
        let ops = vec![
            DiffOp::Delete { old_index: 0, old_len: 1, new_index: stated },
            DiffOp::Equal { old_index: 1, new_index: 0, len: 1 },
        ];
        assert!(check_alignment(&ops, &old_lines, &new_lines));
        assert_eq!(render_checked(&old_lines, &new_lines, &vec![ops], 3), Some("-a\n b\n".to_string()));
    }
}

#[test]
fn path_end_is_where_the_last_operation_ends() {
    let old_lines = owned(&["a\n", "b\n", "c\n"]);
    let new_lines = owned(&["a\n", "x\n", "y\n", "c\n"]);
    let path = vec![
        DiffOp::Replace { old_index: 1, old_len: 1, new_index: 1, new_len: 2 },
        DiffOp::Equal { old_index: 2, new_index: 3, len: 1 },
    ];
    assert_eq!(path_end(&path, &old_lines, &new_lines, 1, 1), Some((3, 4)));
    assert_eq!(path_end(&path, &old_lines, &new_lines, 0, 0), None);
    assert_eq!(path_end(&vec![], &old_lines, &new_lines, 2, 3), Some((2, 3)));
}

#[test]
fn same_lines_compares_stretches_of_lines() {
    let old_lines = owned(&["a\n", "b\n", "c\n"]);
    let new_lines = owned(&["x\n", "a\n", "b\n", "d\n"]);
    assert!(same_lines(&old_lines, 0, &new_lines, 1, 2));
    assert!(!same_lines(&old_lines, 0, &new_lines, 1, 3));
    assert!(same_lines(&old_lines, 2, &new_lines, 0, 0));
}

#[test]
fn groups_are_rendered_with_signs_and_separators() {
    let old_lines = owned(&["a\n", "b\n", "c\n", "d\n", "e\n"]);
    let new_lines = owned(&["A\n", "b\n", "c\n", "d\n", "e\n", "f\n"]);
    let groups = vec![
        vec![
            DiffOp::Replace { old_index: 0, old_len: 1, new_index: 0, new_len: 1 },
            DiffOp::Equal { old_index: 1, new_index: 1, len: 1 },
        ],
        vec![
            DiffOp::Equal { old_index: 4, new_index: 4, len: 1 },
            DiffOp::Insert { old_index: 5, new_index: 5, new_len: 1 },
        ],
    ];
    assert!(check_diff(&groups, &old_lines, &new_lines));
    assert_eq!(groups_end_checked(&groups, &old_lines, &new_lines), Some((5, 6)));
    assert!(check_context(&groups, &old_lines, &new_lines, 1));
    let expected = "-a\n+A\n b\n...\n e\n+f\n".to_string();
    assert_eq!(render_groups(&old_lines, &new_lines, &groups), expected);
    assert_eq!(render_checked(&old_lines, &new_lines, &groups, 1), Some(expected));
}

#[test]
fn groups_with_too_little_or_too_much_context_are_refused() {
    let old_lines = owned(&["a\n", "b\n", "c\n", "d\n", "e\n"]);
    let new_lines = owned(&["A\n", "b\n", "c\n", "d\n", "e\n", "f\n"]);
    let groups = vec![
        vec![
            DiffOp::Replace { old_index: 0, old_len: 1, new_index: 0, new_len: 1 },
            DiffOp::Equal { old_index: 1, new_index: 1, len: 1 },
        ],
        vec![
            DiffOp::Equal { old_index: 4, new_index: 4, len: 1 },
            DiffOp::Insert { old_index: 5, new_index: 5, new_len: 1 },
        ],
    ];
    assert!(check_diff(&groups, &old_lines, &new_lines));
    assert!(!check_context(&groups, &old_lines, &new_lines, 0));
    assert!(!check_context(&groups, &old_lines, &new_lines, 2));
    assert_eq!(render_checked(&old_lines, &new_lines, &groups, 0), None);
    assert_eq!(render_checked(&old_lines, &new_lines, &groups, 3), None);
    let whole = vec![vec![
        DiffOp::Replace { old_index: 0, old_len: 1, new_index: 0, new_len: 1 },
        DiffOp::Equal { old_index: 1, new_index: 1, len: 4 },
        DiffOp::Insert { old_index: 5, new_index: 5, new_len: 1 },
    ]];
    assert!(check_diff(&whole, &old_lines, &new_lines));
    let all = "-a\n+A\n b\n c\n d\n e\n+f\n".to_string();
    assert_eq!(render_checked(&old_lines, &new_lines, &whole, 1), None);
    assert_eq!(render_checked(&old_lines, &new_lines, &whole, 2), Some(all.clone()));
    assert_eq!(render_checked(&old_lines, &new_lines, &whole, 3), Some(all));
}

#[test]
fn window_has_a_change_and_bounded_runs_of_unchanged_lines() {
    let change = DiffOp::Delete { old_index: 3, old_len: 1, new_index: 3 };
    let equal = |len| DiffOp::Equal { old_index: 0, new_index: 0, len };
    assert!(check_window(&vec![change], 0));
    assert!(check_window(&vec![equal(3), change, equal(3)], 3));
    assert!(!check_window(&vec![equal(4), change, equal(3)], 3));
    assert!(!check_window(&vec![equal(3), change, equal(4)], 3));
    assert!(check_window(&vec![equal(3), change, equal(6), change], 3));
    assert!(!check_window(&vec![equal(3), change, equal(7), change], 3));
    assert!(!check_window(&vec![equal(1), equal(1), change], 3));
    assert!(!check_window(&vec![equal(3)], 3));
    assert!(!check_window(&vec![], 3));
    assert!(check_window(&vec![change, change], 3));
    assert_eq!(leading_of(&vec![equal(2), change]), 2);
    assert_eq!(leading_of(&vec![change, equal(2)]), 0);
    assert_eq!(trailing_of(&vec![change, equal(2)]), 2);
    assert_eq!(trailing_of(&vec![equal(2), change]), 0);
    assert_eq!(leading_of(&vec![]), 0);
    assert_eq!(trailing_of(&vec![]), 0);
}

#[test]
fn no_group_renders_as_the_empty_text() {
    let lines = owned(&["a\n"]);
    assert_eq!(render_groups(&lines, &lines, &vec![]), "");
    assert_eq!(render_checked(&lines, &lines, &vec![], 3), Some(String::new()));
}

#[test]
fn groups_that_touch_or_overlap_are_refused() {
    let old_lines = owned(&["a\n", "b\n", "c\n"]);
    let new_lines = owned(&["A\n", "b\n", "C\n"]);
    let first = DiffOp::Replace { old_index: 0, old_len: 1, new_index: 0, new_len: 1 };
    let middle = DiffOp::Equal { old_index: 1, new_index: 1, len: 1 };
    let last = DiffOp::Replace { old_index: 2, old_len: 1, new_index: 2, new_len: 1 };
    let touching = vec![vec![first, middle], vec![last]];
    assert!(!check_diff(&touching, &old_lines, &new_lines));
    assert_eq!(render_checked(&old_lines, &new_lines, &touching, 1), None);
    let overlapping = vec![vec![first, middle], vec![middle, last]];
    assert_eq!(render_checked(&old_lines, &new_lines, &overlapping, 1), None);
    let apart = vec![vec![first], vec![last]];
    assert!(check_diff(&apart, &old_lines, &new_lines));
    assert_eq!(
        render_checked(&old_lines, &new_lines, &apart, 0),
        Some("-a\n+A\n...\n-c\n+C\n".to_string())
    );
    let together = vec![vec![first, middle, last]];
    assert_eq!(
        render_checked(&old_lines, &new_lines, &together, 1),
        Some("-a\n+A\n b\n-c\n+C\n".to_string())
    );
}

#[test]
fn groups_beyond_the_lines_are_refused() {
    let old_lines = owned(&["a\n"]);
    let new_lines = owned(&["b\n"]);
    let beyond = vec![vec![DiffOp::Delete { old_index: 0, old_len: 2, new_index: 0 }]];
    assert_eq!(render_checked(&old_lines, &new_lines, &beyond, 3), None);
    let empty_group: Vec<Vec<DiffOp>> = vec![vec![]];
    assert_eq!(render_checked(&old_lines, &new_lines, &empty_group, 3), None);
    let unequal = vec![vec![DiffOp::Equal { old_index: 0, new_index: 0, len: 1 }]];
    assert_eq!(render_checked(&old_lines, &new_lines, &unequal, 3), None);
    let whole = vec![vec![DiffOp::Replace { old_index: 0, old_len: 1, new_index: 0, new_len: 1 }]];
    assert_eq!(render_checked(&old_lines, &new_lines, &whole, 3), Some("-a\n+b\n".to_string()));
}

#[test]
fn groups_that_leave_out_a_change_are_refused() {
    let old_lines = owned(&["a\n", "b\n", "c\n", "d\n"]);
    let new_lines = owned(&["A\n", "b\n", "C\n", "d\n"]);
    let first_only = vec![vec![DiffOp::Replace { old_index: 0, old_len: 1, new_index: 0, new_len: 1 }]];
    assert!(!check_diff(&first_only, &old_lines, &new_lines));
    assert_eq!(groups_end_checked(&first_only, &old_lines, &new_lines), Some((1, 1)));
    let second_only = vec![vec![DiffOp::Replace { old_index: 2, old_len: 1, new_index: 2, new_len: 1 }]];
    assert_eq!(groups_end_checked(&second_only, &old_lines, &new_lines), None);
    assert_eq!(render_checked(&old_lines, &new_lines, &second_only, 0), None);
    let none: Vec<Vec<DiffOp>> = vec![];
    assert_eq!(render_checked(&old_lines, &new_lines, &none, 0), None);
    let both = vec![
        vec![DiffOp::Replace { old_index: 0, old_len: 1, new_index: 0, new_len: 1 }],
        vec![DiffOp::Replace { old_index: 2, old_len: 1, new_index: 2, new_len: 1 }],
    ];
    assert_eq!(
        render_checked(&old_lines, &new_lines, &both, 0),
        Some("-a\n+A\n...\n-c\n+C\n".to_string())
    );
    let uneven_end = vec![vec![DiffOp::Delete { old_index: 0, old_len: 1, new_index: 0 }]];
    assert_eq!(render_checked(&old_lines, &new_lines, &uneven_end, 0), None);
}

#[test]
fn each_tag_has_its_sign() {
    assert_eq!(sign_of(ChangeTag::Delete), '-');
    assert_eq!(sign_of(ChangeTag::Insert), '+');
    assert_eq!(sign_of(ChangeTag::Equal), ' ');
}

#[test]
fn operation_accessors_give_start_and_length() {
    let op = DiffOp::Replace { old_index: 1, old_len: 2, new_index: 3, new_len: 4 };
    assert_eq!((op.old_index(), op.old_len(), op.new_index(), op.new_len()), (1, 2, 3, 4));
    let op = DiffOp::Insert { old_index: 5, new_index: 6, new_len: 7 };
    assert_eq!((op.old_index(), op.old_len(), op.new_index(), op.new_len()), (5, 0, 6, 7));
    let op = DiffOp::Delete { old_index: 5, old_len: 6, new_index: 7 };
    assert_eq!((op.old_index(), op.old_len(), op.new_index(), op.new_len()), (5, 6, 7, 0));
    let op = DiffOp::Equal { old_index: 8, new_index: 9, len: 2 };
    assert_eq!((op.old_index(), op.old_len(), op.new_index(), op.new_len()), (8, 2, 9, 2));
}

#[test]
fn separator_line_appears_only_between_groups() {
    let one_group = diff_files("a\nb\nc\n", "a\nx\nc\n", "").expect("a diff");
    assert!(!split_lines(&one_group).contains(&"...\n".to_string()));
    let old = numbered(30, &[]);
    let new = numbered(30, &[2, 25]);
    let two_groups = diff_files(&old, &new, "").expect("a diff");
    let lines = split_lines(&two_groups);
    assert_eq!(lines.iter().filter(|l| l.as_str() == "...\n").count(), 1);
    let dots = diff_files("...\n", "", "").expect("a diff");
    assert_eq!(dots, "-...\n");
    assert!(!split_lines(&dots).contains(&"...\n".to_string()));
}

/// A sequence of numbers that looks random and is the same on every run.
fn next(state: &mut u64) -> usize {
    *state = state.wrapping_mul(6364136223846793005).wrapping_add(1442695040888963407);
    (*state >> 33) as usize
}

fn made_up_text(state: &mut u64) -> String {
    let pieces = ["a\n", "b\n", "c\n", "a\r\n", "b\r", "\n", "long line\n", "d\n"];
    let count = next(state) % 14;
    let mut text = String::new();
    for _ in 0..count {
        text.push_str(pieces[next(state) % pieces.len()]);
    }
    if next(state) % 4 == 0 {
        text.push_str("end");
    }
    text
}

#[test]
fn made_up_texts_agree_with_the_aligner_driven_directly() {
    let mut state: u64 = 2024;
    for _ in 0..1500 {
        let old = made_up_text(&mut state);
        let new = made_up_text(&mut state);
        let context = next(&mut state) % 5;
        assert_eq!(diff_with_context(&old, &new, context), Some(direct(&old, &new, context)));
    }
}

#[test]
fn made_up_texts_have_alignments_that_replay() {
    let mut state: u64 = 7;
    for _ in 0..1500 {
        let old = made_up_text(&mut state);
        let new = made_up_text(&mut state);
        let ops = align(&old, &new).expect("an alignment");
        let old_lines = split_lines(&old);
        let new_lines = split_lines(&new);
        let (old_again, new_again) = replay(&ops, &old_lines, &new_lines);
        assert_eq!(old_again, old);
        assert_eq!(new_again, new);
    }
}

#[test]
fn edits_far_apart_in_long_texts_agree_with_the_aligner() {
    let mut state: u64 = 99;
    for _ in 0..20 {
        let count = 101 + next(&mut state) % 200;
        let mut changed = Vec::new();
        for _ in 0..(next(&mut state) % 6) {
            changed.push(next(&mut state) % count);
        }
        let old = numbered(count, &[]);
        let new = numbered(count, &changed);
        assert_eq!(diff_files(&old, &new, ""), Some(direct(&old, &new, 3)));
    }
}

fn made_up_long_text(state: &mut u64, count: usize, kinds: usize) -> String {
    let mut text = String::new();
    for _ in 0..count {
        text.push_str(&format!("line {}\n", next(state) % kinds));
    }
    text
}

#[test]
fn made_up_long_texts_agree_with_the_aligner_driven_directly() {
    let mut state: u64 = 31;
    for round in 0..120 {
        let kinds = 2 + next(&mut state) % 40;
        let old_count = 60 + next(&mut state) % 120;
        let new_count = 60 + next(&mut state) % 120;
        let old = made_up_long_text(&mut state, old_count, kinds);
        let new = made_up_long_text(&mut state, new_count, kinds);
        let context = round % 4;
        assert_eq!(diff_with_context(&old, &new, context), Some(direct(&old, &new, context)));
        assert!(align(&old, &new).is_some());
    }
}

#[test]
fn slightly_edited_texts_agree_with_the_aligner_driven_directly() {
    let mut state: u64 = 5;
    for _ in 0..200 {
        let kinds = 3 + next(&mut state) % 10;
        let count = 20 + next(&mut state) % 100;
        let old = made_up_long_text(&mut state, count, kinds);
        let mut lines: Vec<String> = split_lines(&old);
        for _ in 0..(1 + next(&mut state) % 5) {
            let at = next(&mut state) % (lines.len() + 1);
            match next(&mut state) % 3 {
                0 => lines.insert(at, format!("new {}\n", next(&mut state) % kinds)),
                1 if at < lines.len() => {
                    lines.remove(at);
                }
                _ if at < lines.len() => lines[at] = format!("line {}\n", next(&mut state) % kinds),
                _ => {}
            }
        }
        let new = lines.concat();
        assert_eq!(diff_files(&old, &new, ""), Some(direct(&old, &new, 3)));
        let ops = align(&old, &new).expect("an alignment");
        let (old_again, new_again) = replay(&ops, &split_lines(&old), &split_lines(&new));
        assert_eq!((old_again, new_again), (old.clone(), new.clone()));
    }
}

#[test]
fn edited_texts_agree_with_the_aligner_for_every_context_size() {
    let mut state: u64 = 77;
    for _ in 0..300 {
        let kinds = 2 + next(&mut state) % 30;
        let count = 10 + next(&mut state) % 80;
        let old = made_up_long_text(&mut state, count, kinds);
        let mut lines: Vec<String> = split_lines(&old);
        for _ in 0..(1 + next(&mut state) % 4) {
            let at = next(&mut state) % lines.len();
            if next(&mut state) % 2 == 0 {
                lines[at] = "edited\n".to_string();
            } else {
                lines.insert(at, "added\n".to_string());
            }
        }
        if next(&mut state) % 3 == 0 {
            lines.push("no newline at the end".to_string());
        }
        let new = lines.concat();
        let context = next(&mut state) % 8;
        assert_eq!(diff_with_context(&old, &new, context), Some(direct(&old, &new, context)));
        assert_eq!(diff_with_context(&new, &old, context), Some(direct(&new, &old, context)));
    }
}

#[test]
fn large_context_shows_the_whole_texts() {
    let old = numbered(20, &[]);
    let new = numbered(20, &[10]);
    let text = diff_with_context(&old, &new, 1000).expect("a diff");
    assert_eq!(text, direct(&old, &new, 1000));
    assert_eq!(split_lines(&text).len(), 21);
    assert_eq!(diff_with_context(&old, &new, usize::MAX / 2), Some(text));
}

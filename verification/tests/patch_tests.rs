use codesm_core::patch::{apply_edit, find_first, EditError};
use codesm_core::text::to_chars;

#[test]
fn first_of_two_occurrences_is_replaced() {
    assert_eq!(apply_edit("foo bar foo", "foo", "baz"), Ok("baz bar foo".to_string()));
}

#[test]
fn single_occurrence_is_replaced_exactly() {
    let result = apply_edit("let x = 1;\nlet y = 2;\n", "y = 2", "y = 40 + 2").expect("an edit");
    assert_eq!(result, "let x = 1;\nlet y = 40 + 2;\n");
    assert_eq!(result.chars().count(), 22 - 5 + 10);
}

#[test]
fn missing_target_is_not_found() {
    let content = "foo bar".to_string();
    assert_eq!(apply_edit(&content, "baz", "qux"), Err(EditError::NotFound));
    assert_eq!(content, "foo bar");
    assert_eq!(apply_edit("", "a", "b"), Err(EditError::NotFound));
    assert_eq!(apply_edit("ab", "abc", ""), Err(EditError::NotFound));
}

#[test]
fn not_found_has_its_message() {
    assert_eq!(EditError::NotFound.message(), "Could not find content to replace");
}

#[test]
fn overlapping_occurrences_replace_the_first() {
    assert_eq!(apply_edit("aaa", "aa", "b"), Ok("ba".to_string()));
    assert_eq!(apply_edit("abab", "ab", "ab"), Ok("abab".to_string()));
}

#[test]
fn empty_target_occurs_at_the_start() {
    assert_eq!(apply_edit("abc", "", "x"), Ok("xabc".to_string()));
    assert_eq!(apply_edit("", "", "x"), Ok("x".to_string()));
}

#[test]
fn target_can_be_removed_or_be_the_whole_content() {
    assert_eq!(apply_edit("hello world", " world", ""), Ok("hello".to_string()));
    assert_eq!(apply_edit("all", "all", "none"), Ok("none".to_string()));
    assert_eq!(apply_edit("at the end", "end", "END"), Ok("at the END".to_string()));
}

#[test]
fn edits_work_on_characters_beyond_ascii() {
    assert_eq!(
        apply_edit("na\u{ef}ve caf\u{e9} caf\u{e9}", "caf\u{e9}", "\u{2615}"),
        Ok("na\u{ef}ve \u{2615} caf\u{e9}".to_string())
    );
}

#[test]
fn edit_agrees_with_replacing_once() {
    let cases = [
        ("foo bar foo", "foo", "baz"),
        ("aaaa", "aa", "a"),
        ("line\nline\n", "line\n", ""),
        ("x", "x", "xx"),
        ("abc", "", "-"),
        ("\u{e9}\u{e9}", "\u{e9}", "e"),
    ];
    for (content, target, replacement) in cases {
        assert!(content.contains(target));
        assert_eq!(apply_edit(content, target, replacement), Ok(content.replacen(target, replacement, 1)));
    }
}

#[test]
fn find_first_gives_the_least_position() {
    assert_eq!(find_first(&to_chars("foo bar foo"), &to_chars("foo")), Some(0));
    assert_eq!(find_first(&to_chars("foo bar foo"), &to_chars("bar")), Some(4));
    assert_eq!(find_first(&to_chars("foo bar foo"), &to_chars("r f")), Some(6));
    assert_eq!(find_first(&to_chars("foo"), &to_chars("food")), None);
    assert_eq!(find_first(&to_chars("foo"), &to_chars("")), Some(0));
    assert_eq!(find_first(&to_chars("\u{e9}a"), &to_chars("a")), Some(1));
}

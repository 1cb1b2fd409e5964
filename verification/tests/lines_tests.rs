use codesm_core::lines::{split_chars, split_lines};
use codesm_core::text::{push_chars, same_chars, string_from, to_chars};

fn tokens(text: &str) -> Vec<String> {
    let diff = similar::TextDiff::from_lines(text, "");
    diff.old_slices().iter().map(|l| l.to_string()).collect()
}

#[test]
fn empty_text_has_no_lines() {
    assert_eq!(split_lines(""), Vec::<String>::new());
}

#[test]
fn lines_keep_their_terminators() {
    assert_eq!(split_lines("a\nb\nc\n"), vec!["a\n", "b\n", "c\n"]);
    assert_eq!(split_lines("a\nb"), vec!["a\n", "b"]);
    assert_eq!(split_lines("\n"), vec!["\n"]);
    assert_eq!(split_lines("\n\n"), vec!["\n", "\n"]);
}

#[test]
fn carriage_returns_end_lines_too() {
    assert_eq!(split_lines("a\r\nb\rc"), vec!["a\r\n", "b\r", "c"]);
    assert_eq!(split_lines("\r\r\n\n\r"), vec!["\r", "\r\n", "\n", "\r"]);
    assert_eq!(split_lines("a\n\rb"), vec!["a\n", "\r", "b"]);
}

#[test]
fn lines_joined_give_back_the_text() {
    for text in ["", "x", "a\nb\n", "a\r\n\r\nb\r", "h\u{e9}\n\u{4e16}\u{754c}\r\n\u{1f600}"] {
        assert_eq!(split_lines(text).concat(), text);
    }
}

#[test]
fn lines_are_those_of_the_aligner() {
    for text in [
        "",
        "a",
        "a\n",
        "a\nb",
        "a\r\nb\rc\n",
        "\r\r\n\n\r",
        "\n\r\n\r",
        "h\u{e9}llo\r\nw\u{f6}rld\n\u{1f600}",
        "trailing\r",
    ] {
        assert_eq!(split_lines(text), tokens(text));
    }
}

#[test]
fn characters_round_trip() {
    let text = "a\u{e9}\u{1f600}\n";
    let chars = to_chars(text);
    assert_eq!(chars, vec!['a', '\u{e9}', '\u{1f600}', '\n']);
    assert_eq!(string_from(&chars, 0, chars.len()), text);
    assert_eq!(string_from(&chars, 1, 3), "\u{e9}\u{1f600}");
    assert_eq!(string_from(&chars, 2, 2), "");
    assert_eq!(split_chars(&chars), vec![text]);
}

#[test]
fn push_chars_appends_the_stretch() {
    let chars = to_chars("hello");
    let mut out = "say: ".to_string();
    push_chars(&mut out, &chars, 1, 4);
    assert_eq!(out, "say: ell");
}

#[test]
fn same_chars_compares_length_and_content() {
    assert!(same_chars(&to_chars("abc"), &to_chars("abc")));
    assert!(!same_chars(&to_chars("abc"), &to_chars("abd")));
    assert!(!same_chars(&to_chars("abc"), &to_chars("ab")));
    assert!(same_chars(&to_chars(""), &to_chars("")));
}

#[test]
fn splitting_joined_lines_gives_the_lines_back() {
    let cases: Vec<Vec<&str>> = vec![
        vec![],
        vec!["a\n"],
        vec!["a"],
        vec!["a\n", "b\r\n", "c\r", "d"],
        vec!["\n", "\n", "\r", "\r\n"],
        vec!["one\r", "two\r", "\r\n", "three"],
    ];
    for lines in cases {
        assert_eq!(split_lines(&lines.concat()), lines);
    }
}

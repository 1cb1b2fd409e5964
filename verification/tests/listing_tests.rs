use codesm_core::listing::{listed_path, select_files, Walked};
use codesm_core::sandbox::{command_report, NO_EXIT_CODE};

fn file(path: &str) -> Walked {
    Walked::Entry { is_file: Some(true), path: Some(path.to_string()) }
}

#[test]
fn files_come_out_sorted() {
    let entries = vec![file("src/main.rs"), file("Cargo.toml"), file("src/lib.rs"), file("README.md")];
    assert_eq!(select_files(&entries), vec!["Cargo.toml", "README.md", "src/lib.rs", "src/main.rs"]);
}

#[test]
fn only_regular_files_with_unicode_paths_are_listed() {
    let entries = vec![
        file("b.txt"),
        Walked::Entry { is_file: Some(false), path: Some("dir".to_string()) },
        Walked::Failed,
        Walked::Entry { is_file: None, path: Some("-".to_string()) },
        Walked::Entry { is_file: Some(true), path: None },
        file("a.txt"),
    ];
    assert_eq!(select_files(&entries), vec!["a.txt", "b.txt"]);
}

#[test]
fn no_entries_give_no_files() {
    assert_eq!(select_files(&vec![]), Vec::<String>::new());
    assert_eq!(select_files(&vec![Walked::Failed]), Vec::<String>::new());
}

#[test]
fn paths_that_occur_twice_stay_twice() {
    let entries = vec![file("x"), file("a"), file("x")];
    assert_eq!(select_files(&entries), vec!["a", "x", "x"]);
}

#[test]
fn paths_are_ordered_by_code_point() {
    let entries = vec![file("b"), file("a/b"), file("a"), file("B"), file("\u{e9}"), file("ab"), file("")];
    assert_eq!(select_files(&entries), vec!["", "B", "a", "a/b", "ab", "b", "\u{e9}"]);
}

#[test]
fn listed_path_is_that_of_a_regular_file() {
    assert_eq!(listed_path(&file("a")), Some(&"a".to_string()));
    assert_eq!(listed_path(&Walked::Failed), None);
    assert_eq!(listed_path(&Walked::Entry { is_file: Some(false), path: Some("a".to_string()) }), None);
    assert_eq!(listed_path(&Walked::Entry { is_file: None, path: Some("a".to_string()) }), None);
    assert_eq!(listed_path(&Walked::Entry { is_file: Some(true), path: None }), None);
}

#[test]
fn report_decodes_output_and_keeps_the_exit_code() {
    let report = command_report(&b"hello\n".to_vec(), &"caf\u{e9}".as_bytes().to_vec(), Some(3));
    assert_eq!(report, ("hello\n".to_string(), "caf\u{e9}".to_string(), 3));
}

#[test]
fn report_without_exit_code_has_the_sentinel() {
    let report = command_report(&vec![], &vec![], None);
    assert_eq!(report, (String::new(), String::new(), -1));
    assert_eq!(NO_EXIT_CODE, -1);
}

#[test]
fn invalid_bytes_decode_to_the_replacement_character() {
    let report = command_report(&vec![b'a', 0xff, b'b'], &vec![0xc3], Some(0));
    assert_eq!(report.0, "a\u{fffd}b");
    assert_eq!(report.1, "\u{fffd}");
}

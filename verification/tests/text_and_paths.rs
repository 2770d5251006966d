//! Texts, paths, orders and sorted lists.

use kuntu::order::{bytes_come_before, rank_order, text_comes_before};
use kuntu::path::{expand_tilde, FilePath};
use kuntu::snapshot::ScanNode;
use kuntu::sorted::{holds_number, insert_number, insert_text, shared_numbers, sorted_texts};
use kuntu::text::{
    chars_of, decimal_text, parse_decimal_text, same_text, signed_decimal_text, text_contains,
    text_starts_with, to_ascii_lower, trim_leading_dots,
};

fn path(text: &str) -> FilePath {
    FilePath::from_text(text)
}

fn strings(v: &[&str]) -> Vec<String> {
    v.iter().map(|s| s.to_string()).collect()
}

#[test]
fn characters_and_case() {
    assert_eq!(chars_of("a\u{e9}\u{1f600}"), vec!['a', '\u{e9}', '\u{1f600}']);
    assert_eq!(to_ascii_lower("ABC-xyz-\u{c9}[@`{"), "abc-xyz-\u{c9}[@`{");
    assert_eq!(trim_leading_dots("..tar.gz"), "tar.gz");
    assert_eq!(trim_leading_dots("..."), "");
    assert_eq!(trim_leading_dots("md"), "md");
}

#[test]
fn substrings_and_prefixes() {
    assert!(text_contains("my-secret-file", "secret"));
    assert!(text_contains("abc", ""));
    assert!(text_contains("aab", "ab"));
    assert!(!text_contains("ab", "abc"));
    assert!(!text_contains("sekret", "secret"));
    assert!(text_starts_with(".env.local", ".env."));
    assert!(!text_starts_with(".env", ".env."));
    assert!(same_text("\u{e9}", "\u{e9}"));
    assert!(!same_text("e", "\u{e9}"));
}

#[test]
fn numbers_are_written_and_read_in_decimal() {
    assert_eq!(decimal_text(0), "0");
    assert_eq!(decimal_text(u64::MAX), "18446744073709551615");
    assert_eq!(signed_decimal_text(-1), "-1");
    assert_eq!(signed_decimal_text(42), "42");
    assert_eq!(signed_decimal_text(i64::MIN), "-9223372036854775808");
    assert_eq!(parse_decimal_text("18446744073709551615"), Some(u64::MAX));
    assert_eq!(parse_decimal_text("18446744073709551616"), None);
}

#[test]
fn components_follow_the_separators() {
    let count = |text: &str| path(text).component_count();
    assert_eq!(count(""), 0);
    assert_eq!(count("/"), 1);
    assert_eq!(count("/a//b/./c/"), 4);
    assert_eq!(count("./a/."), 2);
    assert_eq!(count("a/../b"), 3);
    assert_eq!(path("/a//b").component_texts(), vec!["/", "a", "b"]);
    assert_eq!(path("./a").component_texts(), vec![".", "a"]);
    assert!(path("/a//b/.").same_path(&path("/a/b/")));
    assert!(!path("./a").same_path(&path("a")));
    assert_eq!(path("/a//b/."), path("/a/b"));
    assert_ne!(path("/a/b"), path("/a/B"));
}

#[test]
fn prefixes_are_by_component() {
    assert!(path("/a/b/c").starts_with(&path("/a/b/")));
    assert!(!path("/a/bc").starts_with(&path("/a/b")));
    assert!(path("/a").starts_with(&path("")));
    assert_eq!(path("/a/b/c").strip_prefix(&path("/a")).unwrap(), path("b/c"));
    assert_eq!(path("/a//b/").strip_prefix(&path("/a")).unwrap().to_lossy(), "b");
    assert!(path("/a").strip_prefix(&path("/a")).unwrap().is_empty());
    assert_eq!(path("/a").strip_prefix(&path("/b")), None);
}

#[test]
fn names_and_extensions() {
    assert_eq!(path("/a/Report.PDF").file_name_text().as_deref(), Some("Report.PDF"));
    assert_eq!(path("/a/..").file_name_text(), None);
    assert_eq!(path("/").file_name_text(), None);
    assert_eq!(path("/a/b/").file_name_text().as_deref(), Some("b"));
    assert_eq!(path("/a/x.tar.gz").extension_text().as_deref(), Some("gz"));
    assert_eq!(path("/a/.bashrc").extension_text(), None);
    assert_eq!(path("/a/.bashrc.bak").extension_text().as_deref(), Some("bak"));
    assert_eq!(path("/a/x.").extension_text().as_deref(), Some(""));
    assert_eq!(path("/a/x").extension_text(), None);
}

#[test]
fn paths_that_are_not_utf8() {
    let odd = FilePath::from_bytes(b"/r/\xffx.md".to_vec());
    assert_eq!(odd.to_text(), None);
    assert_eq!(odd.to_lossy(), "/r/\u{fffd}x.md");
    assert_eq!(odd.file_name_text(), None);
    assert_eq!(odd.extension_text().as_deref(), Some("md"));
    assert_eq!(path("/r/\u{e9}").to_text().as_deref(), Some("/r/\u{e9}"));
    assert_eq!(path("/r/\u{e9}").to_lossy(), "/r/\u{e9}");
}

#[test]
fn joining_and_the_home_directory() {
    assert_eq!(path("/a").join("b"), path("/a/b"));
    assert_eq!(path("/a/").join("b"), path("/a/b"));
    assert_eq!(path("").join("b"), path("b"));
    assert_eq!(path("/a").join("/b"), path("/b"));
    let home = path("/home/me");
    assert_eq!(expand_tilde(&path("~/x/y"), Some(&home)), path("/home/me/x/y"));
    assert_eq!(expand_tilde(&path("~"), Some(&home)), home);
    assert_eq!(expand_tilde(&path("~"), None), path("~"));
    assert_eq!(expand_tilde(&path("~me/x"), Some(&home)), path("~me/x"));
    assert_eq!(expand_tilde(&path("/~/x"), Some(&home)), path("/~/x"));
}

#[test]
fn paths_are_ordered_by_component() {
    assert!(path("/a/b").comes_before_path(&path("/a-c")));
    assert!(!path("/a-c").comes_before_path(&path("/a/b")));
    assert!(path("/a").comes_before_path(&path("/a/b")));
    assert!(path("/a").comes_before_path(&path("a")));
    assert!(path("./x").comes_before_path(&path("../x")));
    assert!(path("../x").comes_before_path(&path("x")));
    assert!(!path("/a//b").comes_before_path(&path("/a/b")));
    assert!(!path("/a/b").comes_before_path(&path("/a//b")));
}

#[test]
fn texts_are_ordered_by_their_bytes() {
    assert!(text_comes_before("Z", "a"));
    assert!(text_comes_before("z", "\u{e9}"));
    assert!(text_comes_before("a", "ab"));
    assert!(!text_comes_before("a", "a"));
    assert!(bytes_come_before(b"\x7f", b"\x80"));
}

#[test]
fn ranking_is_stable() {
    let node = |size: u64, name: &str, ignored: bool| ScanNode {
        path: path("/x"),
        name: name.to_string(),
        size,
        children: vec![],
        ignored,
        collapsed: false,
        directory: None,
    };
    let items = vec![
        node(1, "b", false),
        node(5, "z", false),
        node(1, "a", true),
        node(1, "a", false),
        node(5, "y", false),
    ];
    assert_eq!(rank_order(&items), vec![4, 1, 2, 3, 0]);
    let none: Vec<ScanNode> = vec![];
    assert_eq!(rank_order(&none), Vec::<usize>::new());
}

#[test]
fn sorted_lists_hold_each_element_once() {
    let mut list: Vec<i64> = vec![];
    for n in [5, 1, 9, 5, -3, 9] {
        insert_number(&mut list, n);
    }
    assert_eq!(list, vec![-3, 1, 5, 9]);
    assert!(holds_number(&list, -3));
    assert!(holds_number(&list, 9));
    assert!(!holds_number(&list, 2));
    assert!(!holds_number(&vec![], 2));
    assert_eq!(shared_numbers(&list, &vec![1, 4, 9, 12]), vec![1, 9]);
    assert_eq!(shared_numbers(&list, &vec![]), Vec::<i64>::new());
    assert_eq!(
        sorted_texts(&strings(&["plan", "a", "plan", "\u{e9}", "B"])),
        strings(&["B", "a", "plan", "\u{e9}"])
    );
    let mut words = strings(&["b"]);
    insert_text(&mut words, "a");
    insert_text(&mut words, "b");
    assert_eq!(words, strings(&["a", "b"]));
}

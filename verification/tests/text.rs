use fs_router::text::{
    chars_of, join_range, occurs_at, path_segments, same_text, split_text, strip_enclosing,
    strip_prefix, strip_suffix, trim_slashes,
};

fn strings(items: &[&str]) -> Vec<String> {
    items.iter().map(|s| s.to_string()).collect()
}

#[test]
fn chars_of_keeps_every_character() {
    assert_eq!(chars_of("a/é"), vec!['a', '/', 'é']);
    assert!(chars_of("").is_empty());
}

#[test]
fn occurs_at_checks_position_and_bounds() {
    let hay = chars_of("pages/index.rs");
    assert!(occurs_at(&hay, 0, &chars_of("pages/")));
    assert!(occurs_at(&hay, 11, &chars_of(".rs")));
    assert!(!occurs_at(&hay, 12, &chars_of(".rs")));
    assert!(!occurs_at(&hay, 1, &chars_of("pages/")));
    assert!(occurs_at(&hay, 14, &chars_of("")));
    assert!(!occurs_at(&hay, 15, &chars_of("")));
}

#[test]
fn split_text_keeps_empty_pieces() {
    assert_eq!(split_text(""), strings(&[""]));
    assert_eq!(split_text("a"), strings(&["a"]));
    assert_eq!(split_text("a/b"), strings(&["a", "b"]));
    assert_eq!(split_text("/a//b/"), strings(&["", "a", "", "b", ""]));
    assert_eq!(split_text("/"), strings(&["", ""]));
}

#[test]
fn path_segments_drop_empty_pieces() {
    assert!(path_segments("").is_empty());
    assert!(path_segments("///").is_empty());
    assert_eq!(path_segments("/a//b/"), strings(&["a", "b"]));
    assert_eq!(path_segments("files/a/b/c/info"), strings(&["files", "a", "b", "c", "info"]));
}

#[test]
fn join_range_puts_slashes_between() {
    let parts = strings(&["files", "a", "b", "c", "info"]);
    assert_eq!(join_range(&parts, 1, 4), "a/b/c");
    assert_eq!(join_range(&parts, 2, 3), "b");
    assert_eq!(join_range(&parts, 2, 2), "");
    assert_eq!(join_range(&parts, 0, 5), "files/a/b/c/info");
}

#[test]
fn join_after_split_gives_the_text_back() {
    for text in ["", "/", "a", "/a//b/", "docs/guide/intro"] {
        let pieces = split_text(text);
        assert_eq!(join_range(&pieces, 0, pieces.len()), text);
    }
}

#[test]
fn trim_slashes_removes_both_ends_only() {
    assert_eq!(trim_slashes("/a/b/"), "a/b");
    assert_eq!(trim_slashes("///a//b//"), "a//b");
    assert_eq!(trim_slashes("a"), "a");
    assert_eq!(trim_slashes("///"), "");
    assert_eq!(trim_slashes(""), "");
}

#[test]
fn strip_prefix_and_suffix() {
    assert_eq!(strip_prefix("pages/index.rs", "pages/"), Some("index.rs"));
    assert_eq!(strip_prefix("other/index.rs", "pages/"), None);
    assert_eq!(strip_prefix("pa", "pages/"), None);
    assert_eq!(strip_prefix("abc", ""), Some("abc"));
    assert_eq!(strip_suffix("index.rs", ".rs"), Some("index"));
    assert_eq!(strip_suffix("index.ts", ".rs"), None);
    assert_eq!(strip_suffix("rs", ".rs"), None);
    assert_eq!(strip_suffix(".rs", ".rs"), Some(""));
}

#[test]
fn strip_enclosing_needs_both_ends() {
    assert_eq!(strip_enclosing("[id]", "[", "]"), Some("id"));
    assert_eq!(strip_enclosing("[...slug]", "[...", "]"), Some("slug"));
    assert_eq!(strip_enclosing("[...]", "[...", "]"), Some(""));
    assert_eq!(strip_enclosing("[id", "[", "]"), None);
    assert_eq!(strip_enclosing("id]", "[", "]"), None);
    assert_eq!(strip_enclosing("[", "[", "]"), None);
    assert_eq!(strip_enclosing("[]", "[", "]"), Some(""));
}

#[test]
fn same_text_compares_characters() {
    assert!(same_text("index", "index"));
    assert!(!same_text("index", "inde"));
    assert!(!same_text("index", "indey"));
    assert!(same_text("", ""));
}

use gen_mdbook_summary::text::{chars_of, ends_with, find_last, precedes_or_equals, trim_bounds};
use gen_mdbook_summary::{SummaryError, SummaryItem};

fn check_name(p: &str, is_dir: bool, expect: &str) {
    let name = SummaryItem::item_name_from_path_str(p, is_dir).unwrap();
    assert_eq!(name, expect);
}

#[test]
fn t_item_name() {
    check_name("README.md", false, "README");
    check_name("One.AA.md", false, "One.AA");
    check_name("blog/Pro/readme.md", false, "readme");
}

#[test]
fn file_name_keeps_embedded_dots() {
    check_name("/book/src/a.b.c.d", false, "a.b.c");
    check_name("/book/src/archive.tar.gz", false, "archive.tar");
    check_name("/book/v1.2/notes.md", false, "notes");
}

#[test]
fn directory_name_keeps_its_dots() {
    check_name("/book/src/v1.2", true, "v1.2");
    check_name("/book/src/One.AA.md", true, "One.AA.md");
    check_name("chapter", true, "chapter");
}

#[test]
fn file_without_dot_has_empty_name() {
    check_name("/book/LICENSE", false, "");
    check_name("/book/LICENSE", true, "LICENSE");
}

#[test]
fn hidden_file_has_empty_stem() {
    check_name("/book/.gitignore", false, "");
    check_name("/book/.config.toml", false, ".config");
}

#[test]
fn trailing_dot_is_the_extension() {
    check_name("/book/name.", false, "name");
    check_name("/book/a..md", false, "a.");
}

#[test]
fn name_is_trimmed() {
    check_name("/book/ notes.md \t", false, "notes");
    check_name("/book/\u{3000}guide.md\u{3000}", false, "guide");
    check_name("/book/\u{a0}part one\n", true, "part one");
    check_name("/book/a b.md", false, "a b");
}

#[test]
fn name_of_non_ascii_path() {
    check_name("/книга/глава.один.md", false, "глава.один");
    check_name("/本/章", true, "章");
}

#[test]
fn empty_component_has_no_name() {
    assert_eq!(SummaryItem::item_name_from_path_str("", false), Err(SummaryError::Name));
    assert_eq!(SummaryItem::item_name_from_path_str("/", true), Err(SummaryError::Name));
    assert_eq!(SummaryItem::item_name_from_path_str("/book/", true), Err(SummaryError::Name));
    assert_eq!(SummaryItem::item_name_from_path_str("/book/  ", false), Err(SummaryError::Name));
}

#[test]
fn chars_of_gives_every_character() {
    assert_eq!(chars_of("a/é"), vec!['a', '/', 'é']);
    assert_eq!(chars_of(""), Vec::<char>::new());
}

#[test]
fn find_last_within_bounds() {
    let v = chars_of("a/b/c.d");
    assert_eq!(find_last(&v, 0, v.len(), '/'), Some(3));
    assert_eq!(find_last(&v, 0, 3, '/'), Some(1));
    assert_eq!(find_last(&v, 4, v.len(), '/'), None);
    assert_eq!(find_last(&v, 0, 0, '/'), None);
    assert_eq!(find_last(&v, 0, v.len(), '.'), Some(5));
}

#[test]
fn trim_bounds_skip_white_space() {
    let v = chars_of("  ab c \n");
    assert_eq!(trim_bounds(&v, 0, v.len()), (2, 6));
    assert_eq!(trim_bounds(&v, 3, 5), (3, 4));
    let blank = chars_of(" \t ");
    let (lo, hi) = trim_bounds(&blank, 0, blank.len());
    assert_eq!(lo, hi);
    let tight = chars_of("abc");
    assert_eq!(trim_bounds(&tight, 0, 3), (0, 3));
}

#[test]
fn ends_with_compares_the_tail() {
    assert!(ends_with(&chars_of("/a/readme.md"), &chars_of("readme.md")));
    assert!(ends_with(&chars_of("readme.md"), &chars_of("readme.md")));
    assert!(!ends_with(&chars_of("/a/Readme.md"), &chars_of("readme.md")));
    assert!(!ends_with(&chars_of("me.md"), &chars_of("readme.md")));
    assert!(ends_with(&chars_of("abc"), &chars_of("")));
}

#[test]
fn names_are_ordered_by_code_point() {
    let le = |a: &str, b: &str| precedes_or_equals(&chars_of(a), &chars_of(b));
    assert!(le("a", "b"));
    assert!(!le("b", "a"));
    assert!(le("a", "a"));
    assert!(le("", "a"));
    assert!(!le("a", ""));
    assert!(le("a", "ab"));
    assert!(!le("ab", "a"));
    assert!(le("B", "a"));
    assert!(!le("a", "B"));
    assert!(le("z", "é"));
    assert!(!le("é", "z"));
    assert!(le("abc", "abd"));
}

#[test]
fn name_order_agrees_with_string_order() {
    let names = ["", "a", "A", "ab", "b", "é", "z", "10", "9", "a.b", "a b"];
    for a in names.iter() {
        for b in names.iter() {
            assert_eq!(precedes_or_equals(&chars_of(a), &chars_of(b)), a <= b);
        }
    }
}
